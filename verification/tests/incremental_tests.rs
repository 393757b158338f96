use rune_core::datalog::backends::FactList;
use rune_core::datalog::incremental::{compute_fact_diff, Delta, IncrementalEvaluator};
use rune_core::datalog::types::{Atom, Rule, Term};
use rune_core::facts::FactStore;
use std::sync::Arc;
use rune_core::facts::Fact;
use rune_core::types::Value;

fn test_fact(pred: &str, arg: i64) -> Fact {
    Fact::new(pred.to_string(), vec![Value::Integer(arg)])
}

#[test]
fn test_delta_empty() {
    let delta = Delta::empty();
    assert!(delta.is_empty());
    assert_eq!(delta.size(), 0);
}

#[test]
fn test_delta_from_sets() {
    let mut old = FactList::new();
    old.insert(test_fact("a", 1));
    old.insert(test_fact("a", 2));
    let mut new = FactList::new();
    new.insert(test_fact("a", 2));
    new.insert(test_fact("a", 3));

    let delta = Delta::from_sets(&old, &new);

    assert_eq!(delta.added.len(), 1);
    assert!(delta.added.contains(&test_fact("a", 3)));

    assert_eq!(delta.removed.len(), 1);
    assert!(delta.removed.contains(&test_fact("a", 1)));
}

#[test]
fn test_delta_merge() {
    let mut delta1 = Delta::empty();
    delta1.added.insert(test_fact("a", 1));
    delta1.removed.insert(test_fact("a", 2));

    let mut delta2 = Delta::empty();
    delta2.added.insert(test_fact("a", 3));
    delta2.removed.insert(test_fact("a", 1)); // Conflicts with delta1.added

    delta1.merge(delta2);

    // Fact "a(1)" was added then removed, so it should not appear
    assert!(!delta1.added.contains(&test_fact("a", 1)));
    assert!(!delta1.removed.contains(&test_fact("a", 1)));

    // Fact "a(2)" was removed
    assert!(delta1.removed.contains(&test_fact("a", 2)));

    // Fact "a(3)" was added
    assert!(delta1.added.contains(&test_fact("a", 3)));
}

#[test]
fn test_compute_fact_diff() {
    let old = vec![test_fact("a", 1), test_fact("a", 2)];
    let new = vec![test_fact("a", 2), test_fact("a", 3)];

    let delta = compute_fact_diff(&old, &new);

    assert_eq!(delta.added.len(), 1);
    assert!(delta.added.contains(&test_fact("a", 3)));
    assert_eq!(delta.removed.len(), 1);
    assert!(delta.removed.contains(&test_fact("a", 1)));
}


#[test]
fn delta_merge_cancels_add_then_remove() {
    let mut d = Delta::empty();
    let mut add = Delta::empty();
    add.added.insert(test_fact("p", 1));
    d.merge(add);
    assert_eq!(d.size(), 1);
    let mut rem = Delta::empty();
    rem.removed.insert(test_fact("p", 1));
    d.merge(rem);
    assert!(d.is_empty());
    let dup = compute_fact_diff(&[test_fact("q", 1), test_fact("q", 1)], &[]);
    assert_eq!(dup.removed.len(), 1);
}

fn test_rule(head_pred: &str, body_pred: &str) -> Rule {
    Rule {
        head: Atom {
            predicate: head_pred.to_string(),
            terms: vec![Term::Variable("X".to_string())],
            negated: false,
        },
        body: vec![Atom {
            predicate: body_pred.to_string(),
            terms: vec![Term::Variable("X".to_string())],
            negated: false,
        }],
        stratum: 0,
    }
}

fn store_with(facts: Vec<Fact>) -> Arc<FactStore> {
    let mut store = FactStore::new();
    for f in facts {
        store.add_fact(f);
    }
    Arc::new(store)
}

#[test]
fn test_incremental_evaluator_creation() {
    let fact_store = Arc::new(FactStore::new());
    let rules = vec![test_rule("derived", "base")];
    let mut evaluator = IncrementalEvaluator::new(rules.clone(), fact_store);

    assert_eq!(evaluator.rules().len(), 1);
    assert_eq!(evaluator.generation(), 0);
    // the first evaluation is forced to run in full
    assert!(!evaluator.evaluate().was_incremental);
}

#[test]
fn test_incremental_evaluator_full_eval() {
    let fact_store = store_with(vec![test_fact("base", 1), test_fact("base", 2)]);

    let rules = vec![test_rule("derived", "base")];
    let mut evaluator = IncrementalEvaluator::new(rules, fact_store);

    let result = evaluator.evaluate();

    assert!(!result.was_incremental);
    assert_eq!(result.generation, 1);
    assert!(result.evaluation.facts.len() >= 2);
}

#[test]
fn test_incremental_evaluator_no_changes() {
    let fact_store = store_with(vec![test_fact("base", 1)]);

    let rules = vec![test_rule("derived", "base")];
    let mut evaluator = IncrementalEvaluator::new(rules, fact_store);

    let result1 = evaluator.evaluate();
    let facts1_len = result1.evaluation.facts.len();

    let result2 = evaluator.evaluate();

    assert!(result2.was_incremental);
    assert_eq!(result2.generation, 2);
    assert!(result2.delta.is_empty());
    assert_eq!(result2.evaluation.facts.len(), facts1_len);
}

#[test]
fn test_incremental_evaluator_rule_update() {
    let fact_store = store_with(vec![test_fact("base", 1)]);

    let rules = vec![test_rule("derived", "base")];
    let mut evaluator = IncrementalEvaluator::new(rules, fact_store);

    evaluator.evaluate();

    let new_rules = vec![test_rule("derived2", "base")];
    evaluator.update_rules(new_rules);

    let result = evaluator.evaluate();

    assert!(result.was_incremental);
    assert_eq!(result.generation, 2);
}

#[test]
fn test_incremental_evaluator_reset() {
    let fact_store = store_with(vec![test_fact("base", 1)]);

    let rules = vec![test_rule("derived", "base")];
    let mut evaluator = IncrementalEvaluator::new(rules, fact_store);

    evaluator.evaluate();
    assert_eq!(evaluator.generation(), 0 + 1);

    evaluator.reset();

    assert_eq!(evaluator.generation(), 0);
    assert_eq!(evaluator.stats().cached_derived_facts, 0);
    // after a reset the next evaluation runs in full again
    assert!(!evaluator.evaluate().was_incremental);
}

#[test]
fn test_incremental_evaluator_stats() {
    let fact_store = store_with(vec![test_fact("base", 1), test_fact("base", 2)]);

    let rules = vec![test_rule("derived", "base")];
    let mut evaluator = IncrementalEvaluator::new(rules, fact_store);

    evaluator.evaluate();

    let stats = evaluator.stats();
    assert_eq!(stats.generation, 1);
    assert_eq!(stats.rules_count, 1);
    assert!(stats.cached_base_facts >= 2);
}

#[test]
fn incremental_full_evaluation_derives_and_keeps_base_facts() {
    let fact_store = store_with(vec![test_fact("base", 1), test_fact("base", 2)]);
    let mut evaluator = IncrementalEvaluator::new(vec![test_rule("derived", "base")], fact_store);
    let result = evaluator.evaluate();
    // two base facts and the two facts derived from them
    assert_eq!(result.evaluation.facts.len(), 4);
    assert!(result.evaluation.facts.contains(&test_fact("derived", 1)));
    assert!(result.evaluation.facts.contains(&test_fact("derived", 2)));
    assert_eq!(evaluator.stats().cached_derived_facts, 4);
}

#[test]
fn updated_rules_take_effect_on_an_unchanged_store() {
    let fact_store = store_with(vec![test_fact("base", 1)]);
    let mut evaluator = IncrementalEvaluator::new(vec![test_rule("derived", "base")], fact_store);
    evaluator.evaluate();
    evaluator.update_rules(vec![test_rule("derived2", "base")]);
    let result = evaluator.evaluate();
    assert!(result.was_incremental);
    assert_eq!(result.generation, 2);
    assert!(result.evaluation.facts.contains(&test_fact("derived2", 1)));
    assert!(!result.evaluation.facts.contains(&test_fact("derived", 1)));
    assert!(result.delta.added.contains(&test_fact("derived2", 1)));
    assert!(result.delta.removed.contains(&test_fact("derived", 1)));
    // a third evaluation with nothing changed gives back the same facts
    let again = evaluator.evaluate();
    assert!(again.evaluation.facts.contains(&test_fact("derived2", 1)));
    assert!(again.delta.is_empty());
}
