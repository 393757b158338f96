use rune_core::engine::{combine_results, AuthorizationResult, Decision, EngineConfig, EngineMetrics, RUNEEngine};
use rune_core::error::RUNEError;
use rune_core::request::Request;
use rune_core::types::{Action, Principal, Resource, Value};
use rune_core::VERSION;

#[test]
fn test_decision_combination() {
    assert_eq!(Decision::Forbid.combine(Decision::Permit), Decision::Forbid);
    assert_eq!(Decision::Deny.combine(Decision::Permit), Decision::Deny);
    assert_eq!(Decision::Permit.combine(Decision::Permit), Decision::Permit);
}

#[test]
fn test_version() {
    assert!(VERSION.contains('.'));
}

fn result(decision: Decision, explanation: &str, rules: &[&str]) -> AuthorizationResult {
    AuthorizationResult {
        decision,
        explanation: explanation.to_string(),
        evaluated_rules: rules.iter().map(|s| s.to_string()).collect(),
        facts_used: vec!["f".to_string()],
        evaluation_time_ns: 0,
        cached: true,
    }
}

#[test]
fn engine_combines_results() {
    let r = combine_results(
        result(Decision::Permit, "a", &["r1"]),
        result(Decision::Permit, "b", &["r2", "r3"]),
        42,
    );
    assert_eq!(r.decision, Decision::Permit);
    assert_eq!(r.explanation, "Permitted by 3 rules");
    assert_eq!(r.evaluated_rules, vec!["r1", "r2", "r3"]);
    assert_eq!(r.facts_used.len(), 2);
    assert_eq!(r.evaluation_time_ns, 42);
    assert!(!r.cached);

    let r = combine_results(result(Decision::Deny, "a", &[]), result(Decision::Permit, "b", &[]), 0);
    assert_eq!(r.explanation, "No matching permit rules");

    let r = combine_results(result(Decision::Forbid, "dl", &[]), result(Decision::Forbid, "cedar", &[]), 0);
    assert_eq!(r.decision, Decision::Forbid);
    assert_eq!(r.explanation, "cedar");
    let r = combine_results(result(Decision::Forbid, "dl", &[]), result(Decision::Permit, "cedar", &[]), 0);
    assert_eq!(r.explanation, "dl");
}

#[test]
fn engine_decision_laws_on_values() {
    let all = [Decision::Permit, Decision::Deny, Decision::Forbid];
    for a in all {
        assert_eq!(Decision::Forbid.combine(a), Decision::Forbid);
        assert_eq!(Decision::Permit.combine(a), a);
        assert_eq!(a.combine(a), a);
        for b in all {
            assert_eq!(a.combine(b), b.combine(a));
            for c in all {
                assert_eq!(a.combine(b).combine(c), a.combine(b.combine(c)));
            }
        }
    }
    assert!(Decision::Permit.is_permitted());
    assert!(!Decision::Deny.is_permitted());
}

#[test]
fn engine_config_and_metrics() {
    let c = EngineConfig::default();
    assert_eq!(c.cache_size, 10_000);
    assert_eq!(c.cache_ttl_secs, 60);
    assert!(c.parallel_eval);
    assert_eq!(c.timeout_ms, 100);
    assert!(c.is_fresh(59));
    assert!(!c.is_fresh(60));
    let mut m = EngineMetrics::new();
    m.record_cache_hit();
    m.record_cache_miss();
    m.record_authorization(Decision::Deny);
    assert_eq!(m.cache_hits, 1);
    assert_eq!(m.cache_misses, 1);
    assert_eq!(m.total_authorizations, 1);
    assert_eq!(m.total_denies, 1);
    assert_eq!(m.total_permits, 0);
}

#[test]
fn test_engine_creation() {
    let engine = RUNEEngine::new();
    assert_eq!(engine.cache_len(), 0);
}

#[test]
fn test_cache_key_generation() {
    let request1 = Request::new(
        Principal::agent("agent1"),
        Action::new("read"),
        Resource::file("/tmp/test.txt"),
    );

    let request2 = Request::new(
        Principal::agent("agent1"),
        Action::new("read"),
        Resource::file("/tmp/test.txt"),
    );

    assert_eq!(request1.cache_key(), request2.cache_key());

    let request3 = Request::new(
        Principal::agent("agent2"),
        Action::new("read"),
        Resource::file("/tmp/test.txt"),
    );

    assert_ne!(request1.cache_key(), request3.cache_key());
}

fn sample_request() -> Request {
    Request::new(Principal::agent("agent1"), Action::new("read"), Resource::file("/tmp/test.txt"))
}

#[test]
fn engine_answer_is_cached_and_served_again() {
    let mut engine = RUNEEngine::new();
    let request = sample_request();
    let first = engine.authorize(&request).unwrap();
    assert_eq!(first.decision, Decision::Deny);
    assert_eq!(first.explanation, "No matching permit rules");
    assert!(!first.cached);
    assert_eq!(engine.cache_len(), 1);
    let second = engine.authorize(&request).unwrap();
    assert!(second.cached);
    assert_eq!(second.decision, first.decision);
    assert_eq!(second.explanation, first.explanation);
    assert_eq!(second.evaluated_rules, first.evaluated_rules);
    let m = engine.metrics();
    assert_eq!(m.cache_misses, 1);
    assert_eq!(m.cache_hits, 1);
    assert_eq!(m.total_authorizations, 1);
    assert_eq!(m.total_denies, 1);
    assert_eq!(m.total_permits, 0);
    engine.clear_cache();
    assert_eq!(engine.cache_len(), 0);
}

#[test]
fn engine_stale_entry_is_evaluated_again() {
    let mut engine = RUNEEngine::new();
    let request = sample_request();
    let first = engine.authorize_at(&request, 7, 1_000_000_000).unwrap();
    assert!(!first.cached);
    let within = engine.authorize_at(&request, 7, 60_999_999_999).unwrap();
    assert!(within.cached);
    let later = engine.authorize_at(&request, 7, 61_000_000_000).unwrap();
    assert!(!later.cached);
    let m = engine.metrics();
    assert_eq!(m.cache_hits, 1);
    assert_eq!(m.cache_misses, 2);
    assert_eq!(m.total_authorizations, 2);
    assert_eq!(engine.cache_len(), 1);
}

#[test]
fn engine_refuses_bad_type_names() {
    let mut engine = RUNEEngine::new();
    let request = Request::new(Principal::new("not a type", "x"), Action::new("read"), Resource::file("/f"));
    match engine.authorize_at(&request, 1, 0) {
        Err(RUNEError::InvalidRequest(m)) => assert!(m.starts_with("Invalid principal type: ")),
        other => panic!("unexpected {:?}", other.map(|r| r.decision)),
    }
    assert_eq!(engine.cache_len(), 0);
    assert_eq!(engine.metrics().cache_misses, 1);
    assert_eq!(engine.metrics().total_authorizations, 0);
}

#[test]
fn engine_facts_reach_the_datalog_side() {
    let mut engine = RUNEEngine::new();
    let before = engine.authorize_at(&sample_request(), 3, 0).unwrap();
    assert!(before.facts_used.is_empty());
    engine.add_fact("user", vec![Value::string("alice")]);
    // a new key: the fact is listed among the facts used, and the empty
    // policy set still denies
    let r = engine.authorize_at(&sample_request(), 4, 0).unwrap();
    assert_eq!(r.decision, Decision::Deny);
    assert_eq!(r.facts_used.len(), 1);
    assert!(r.facts_used[0].starts_with("user("));
}

#[test]
fn engine_answers_exactly_when_cedar_accepts_the_entities() {
    let mut engine = RUNEEngine::new();
    // the principal and the resource are one entity: Cedar refuses the store
    let same = Request::new(Principal::new("User", "alice"), Action::new("read"), Resource::new("User", "alice"));
    match engine.authorize(&same) {
        Err(RUNEError::InvalidRequest(m)) => assert!(m.starts_with("Failed to create entities: ")),
        other => panic!("expected a refusal of the entities, got {:?}", other.map(|r| r.decision)),
    }
    // distinct entities: answered, Deny from the empty policy set
    let distinct = Request::new(Principal::new("User", "alice"), Action::new("read"), Resource::new("File", "doc"));
    let answer = engine.authorize(&distinct).unwrap();
    assert_eq!(answer.decision, Decision::Deny);
    assert!(!answer.cached);
}
