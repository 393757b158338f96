use rune_core::engine::Decision;
use rune_core::error::RUNEError;
use rune_core::policy::PolicySet;
use rune_core::request::Request;
use rune_core::types::{Action, Principal, Resource};

fn request(principal: &str, resource_type: &str, resource: &str) -> Request {
    Request::new(Principal::new("User", principal), Action::new("read"), Resource::new(resource_type, resource))
}

#[test]
fn empty_policy_set_denies() {
    let set = PolicySet::new();
    let result = set.evaluate(&request("alice", "File", "doc")).unwrap();
    assert_eq!(result.decision, Decision::Deny);
    assert!(result.evaluated_rules.is_empty());
}

#[test]
fn cedar_decides_by_the_request_principal() {
    let mut set = PolicySet::new();
    set.load_policies(r#"permit(principal == User::"alice", action, resource);"#).unwrap();
    let allowed = set.evaluate(&request("alice", "File", "doc")).unwrap();
    assert_eq!(allowed.decision, Decision::Permit);
    assert_eq!(allowed.evaluated_rules, vec!["policy0".to_string()]);
    // The principal is bob; alice is only the resource.
    let denied = set.evaluate(&request("bob", "User", "alice")).unwrap();
    assert_eq!(denied.decision, Decision::Deny);
    assert!(denied.evaluated_rules.is_empty());
}

#[test]
fn forbid_overrides_permit() {
    let mut set = PolicySet::new();
    set.load_policies(
        r#"permit(principal, action, resource);
           forbid(principal == User::"mallory", action, resource);"#,
    )
    .unwrap();
    assert_eq!(set.evaluate(&request("alice", "File", "doc")).unwrap().decision, Decision::Permit);
    let denied = set.evaluate(&request("mallory", "File", "doc")).unwrap();
    assert_eq!(denied.decision, Decision::Deny);
    assert_eq!(denied.evaluated_rules, vec!["policy1".to_string()]);
}

#[test]
fn added_policy_takes_id_policy0_once() {
    let mut set = PolicySet::new();
    assert!(set.add_policy("first", "permit(principal, action, resource);").is_ok());
    assert_eq!(set.evaluate(&request("alice", "File", "doc")).unwrap().decision, Decision::Permit);
    // A second policy parsed without an id is policy0 again: refused.
    match set.add_policy("second", "forbid(principal, action, resource);") {
        Err(RUNEError::ConfigError(_)) => {}
        other => panic!("expected a configuration error, got {:?}", other.is_ok()),
    }
    assert_eq!(set.evaluate(&request("alice", "File", "doc")).unwrap().decision, Decision::Permit);
}

#[test]
fn add_policy_refuses_when_loaded_set_has_policy0() {
    let mut set = PolicySet::new();
    set.load_policies("forbid(principal, action, resource);").unwrap();
    assert!(set.add_policy("p", "permit(principal, action, resource);").is_err());
    assert_eq!(set.evaluate(&request("alice", "File", "doc")).unwrap().decision, Decision::Deny);
}

#[test]
fn add_policy_reports_parse_errors() {
    let mut set = PolicySet::new();
    match set.add_policy("p", "this is not cedar") {
        Err(RUNEError::ConfigError(m)) => assert!(m.starts_with("Failed to parse policy: ")),
        _ => panic!("expected a parse error"),
    }
}
