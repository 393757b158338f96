use rune_core::datalog::provenance::{DerivationSource, ProvenanceQuery, ProvenanceTracker};
use rune_core::facts::Fact;
use rune_core::types::Value;

fn test_fact(pred: &str, arg: i64) -> Fact {
    Fact::new(pred.to_string(), vec![Value::Integer(arg)])
}

#[test]
fn test_provenance_base_fact() {
    let mut tracker = ProvenanceTracker::new(true);
    let fact = test_fact("node", 1);

    tracker.record_base(fact.clone());

    let derivations = tracker.get_derivations(&fact);
    assert_eq!(derivations.len(), 1);
    assert_eq!(derivations[0].source, DerivationSource::Base);
}

#[test]
fn test_provenance_derived_fact() {
    let mut tracker = ProvenanceTracker::new(true);

    let base1 = test_fact("edge", 1);
    let base2 = test_fact("edge", 2);
    let derived = test_fact("path", 3);

    tracker.record_base(base1.clone());
    tracker.record_base(base2.clone());
    tracker.record_derived(derived.clone(), "transitive".to_string(), 1, vec![base1, base2]);

    let derivations = tracker.get_derivations(&derived);
    assert_eq!(derivations.len(), 1);

    if let DerivationSource::Rule { rule_name, premises, .. } = &derivations[0].source {
        assert_eq!(rule_name, "transitive");
        assert_eq!(premises.len(), 2);
    } else {
        panic!("Expected Rule derivation");
    }
}

#[test]
fn test_provenance_disabled() {
    let mut tracker = ProvenanceTracker::new(false);
    let fact = test_fact("node", 1);

    tracker.record_base(fact.clone());

    let derivations = tracker.get_derivations(&fact);
    assert_eq!(derivations.len(), 0);
}

#[test]
fn test_proof_tree() {
    let mut tracker = ProvenanceTracker::new(true);

    let base = test_fact("edge", 1);
    let derived = test_fact("path", 2);

    tracker.record_base(base.clone());
    tracker.record_derived(derived.clone(), "rule1".to_string(), 1, vec![base]);

    let proof = tracker.get_proof_tree(&derived).unwrap();
    assert_eq!(proof.depth(), 2);
    assert_eq!(proof.node_count(), 2);
}

#[test]
fn test_explanation_generation() {
    let mut tracker = ProvenanceTracker::new(true);

    let base = test_fact("user", 1);
    let derived = test_fact("authorized", 2);

    tracker.record_base(base.clone());
    tracker.record_derived(derived.clone(), "auth_rule".to_string(), 1, vec![base]);

    let explanation = tracker.explain(&derived);
    assert!(explanation.contains("auth_rule"));
    assert!(explanation.contains("base fact"));
}

#[test]
fn test_provenance_query() {
    let mut tracker = ProvenanceTracker::new(true);

    let base1 = test_fact("A", 1);
    let base2 = test_fact("B", 2);
    let intermediate = test_fact("C", 3);
    let final_fact = test_fact("D", 4);

    tracker.record_base(base1.clone());
    tracker.record_base(base2.clone());
    tracker.record_derived(
        intermediate.clone(),
        "rule1".to_string(),
        1,
        vec![base1.clone(), base2.clone()],
    );
    tracker.record_derived(final_fact.clone(), "rule2".to_string(), 2, vec![intermediate]);

    let query = ProvenanceQuery::new(&tracker);

    let contributing = query.contributing_facts(&final_fact);
    assert_eq!(contributing.len(), 4);
    assert!(contributing.contains(&base1));
    assert!(contributing.contains(&base2));

    let rules = query.contributing_rules(&final_fact);
    assert_eq!(rules.len(), 2);
    assert!(rules.contains(&("rule1".to_string(), 1)));
    assert!(rules.contains(&("rule2".to_string(), 2)));
}

#[test]
fn test_provenance_stats() {
    let mut tracker = ProvenanceTracker::new(true);

    for i in 0..5 {
        tracker.record_base(test_fact("base", i));
    }

    let stats = tracker.stats();
    assert_eq!(stats.total_facts, 5);
    assert_eq!(stats.total_derivations, 5);
    assert!(stats.enabled);
}

#[test]
fn test_record_then_read_back_and_other_facts_untouched() {
    let mut tracker = ProvenanceTracker::new(true);
    let a = test_fact("a", 1);
    let b = test_fact("b", 2);
    tracker.record_base(a.clone());
    tracker.record_base(a.clone());
    assert_eq!(tracker.get_derivations(&a).len(), 2);
    assert!(!tracker.has_derivation(&b));
    assert!(tracker.get_proof_tree(&b).is_none());
    assert!(tracker.has_derivation(&a));
    assert!(tracker.get_proof_tree(&a).is_some());
}

#[test]
fn test_explanation_exact_text_and_missing_fact() {
    let mut tracker = ProvenanceTracker::new(true);
    let base = Fact { predicate: "user".to_string(), args: vec![Value::Integer(1)], timestamp: 7 };
    let derived = Fact { predicate: "ok".to_string(), args: vec![], timestamp: 9 };
    tracker.record_base(base.clone());
    tracker.record_derived(derived.clone(), "r".to_string(), 0, vec![base.clone()]);
    let text = tracker.explain(&derived);
    let expected = format!(
        "• {:?} (by r)\n  because:\n  • {:?} (base fact)",
        derived, base
    );
    assert_eq!(text, expected);
    let missing = test_fact("none", 0);
    assert_eq!(tracker.explain(&missing), format!("No derivation found for: {:?}", missing));
}

#[test]
fn test_set_enabled_off_clears_and_shortest_proof() {
    let mut tracker = ProvenanceTracker::new(true);
    let a = test_fact("a", 1);
    let d = test_fact("d", 2);
    tracker.record_derived(d.clone(), "deep".to_string(), 1, vec![a.clone()]);
    tracker.record_base(d.clone());
    let query = ProvenanceQuery::new(&tracker);
    let shortest = query.shortest_proof(&d).unwrap();
    assert_eq!(shortest.depth(), 1);
    tracker.set_enabled(false);
    assert_eq!(tracker.stats().total_facts, 0);
    assert_eq!(tracker.stats().cached_nodes, 0);
}
