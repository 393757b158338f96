use rune_core::datalog::semi_naive::{FactIndex, OptimizedEvaluator};
use rune_core::datalog::types::{Atom, Rule, Term};
use rune_core::facts::{Fact, FactStore};
use rune_core::types::Value;
use std::sync::Arc;

#[test]
fn test_fact_index() {
    let mut index = FactIndex::new();

    let fact1 = Fact::binary("edge", Value::Integer(1), Value::Integer(2));
    let fact2 = Fact::binary("edge", Value::Integer(2), Value::Integer(3));
    let fact3 = Fact::unary("node", Value::Integer(1));

    index.index_fact(&fact1);
    index.index_fact(&fact2);
    index.index_fact(&fact3);

    // Test predicate lookup
    let atom = Atom::new("edge", vec![Term::var("X"), Term::var("Y")]);
    let results = index.lookup(&atom);
    assert_eq!(results.len(), 2);

    // Test first argument lookup
    let atom = Atom::new("edge", vec![Term::constant(Value::Integer(1)), Term::var("Y")]);
    let results = index.lookup(&atom);
    assert_eq!(results.len(), 1);
}

fn path_rules() -> Vec<Rule> {
    vec![
        // path(X, Y) :- edge(X, Y).
        Rule::new(
            Atom::new("path", vec![Term::var("X"), Term::var("Y")]),
            vec![Atom::new("edge", vec![Term::var("X"), Term::var("Y")])],
        ),
        // path(X, Z) :- path(X, Y), edge(Y, Z).
        Rule::new(
            Atom::new("path", vec![Term::var("X"), Term::var("Z")]),
            vec![
                Atom::new("path", vec![Term::var("X"), Term::var("Y")]),
                Atom::new("edge", vec![Term::var("Y"), Term::var("Z")]),
            ],
        ),
    ]
}

#[test]
fn test_optimized_evaluation() {
    let mut store = FactStore::new();
    store.add_fact(Fact::binary("edge", Value::Integer(1), Value::Integer(2)));
    store.add_fact(Fact::binary("edge", Value::Integer(2), Value::Integer(3)));
    let fact_store = Arc::new(store);

    let evaluator = OptimizedEvaluator::new(path_rules(), fact_store);
    let (facts, stats) = evaluator.evaluate();

    // Should derive: path(1,2), path(2,3), path(1,3)
    assert_eq!(facts.len(), 3);
    assert!(stats.total_iterations > 0);
    assert!(stats.index_lookups > 0);
}

#[test]
fn test_parallel_evaluation() {
    let mut store = FactStore::new();

    // Add more facts for parallel testing
    for i in 0..10 {
        store.add_fact(Fact::binary("edge", Value::Integer(i), Value::Integer(i + 1)));
    }
    let fact_store = Arc::new(store);

    let mut evaluator = OptimizedEvaluator::new(path_rules(), fact_store);

    // Test with parallel evaluation
    evaluator.set_parallel(true);
    let (facts_parallel, _stats_parallel) = evaluator.evaluate();

    // Test without parallel evaluation
    evaluator.set_parallel(false);
    let (facts_sequential, _stats_sequential) = evaluator.evaluate();

    // Results should be the same
    assert_eq!(facts_parallel.len(), facts_sequential.len());
}

#[test]
fn optimized_index_uses_second_argument_and_falls_back() {
    let mut index = FactIndex::new();
    index.index_fact(&Fact::binary("edge", Value::Integer(1), Value::Integer(2)));
    index.index_fact(&Fact::binary("edge", Value::Integer(3), Value::Integer(2)));
    index.index_fact(&Fact::binary("edge", Value::Integer(3), Value::Integer(4)));
    // second argument 2: two facts
    let by_second = index.lookup(&Atom::new("edge", vec![Term::var("X"), Term::constant(Value::Integer(2))]));
    assert_eq!(by_second.len(), 2);
    // a first argument no fact has: falls to the second argument
    let fallback = index.lookup(&Atom::new(
        "edge",
        vec![Term::constant(Value::Integer(9)), Term::constant(Value::Integer(4))],
    ));
    assert_eq!(fallback.len(), 1);
    // unknown predicate: nothing
    assert!(index.lookup(&Atom::new("node", vec![])).is_empty());
}

#[test]
fn optimized_later_stratum_starts_without_delta() {
    let mut store = FactStore::new();
    store.add_fact(Fact::unary("a", Value::Integer(1)));
    store.add_fact(Fact::unary("b", Value::Integer(1)));
    let fact_store = Arc::new(store);
    // c(X) :- a(X), not b(X).  The negated atom puts the rule in stratum 1;
    // stratum 0 has no rules and gives the store's facts, which stratum 1
    // then already has, so its first delta is empty and nothing is derived.
    let mut negated = Atom::new("b", vec![Term::var("X")]);
    negated.negated = true;
    let rules = vec![Rule::new(Atom::new("c", vec![Term::var("X")]), vec![Atom::new("a", vec![Term::var("X")]), negated])];
    let evaluator = OptimizedEvaluator::new(rules, fact_store);
    let (facts, _) = evaluator.evaluate();
    assert_eq!(facts.len(), 2);
    assert!(facts.iter().all(|f| f.predicate != "c"));
}

#[test]
fn optimized_fact_rules_and_positive_join_of_negated_atoms() {
    // A fact rule and a rule whose negated atom is joined as a positive one:
    // d(X) :- e(X), not e(X) derives d(1) from e(1).
    let fact_store = Arc::new(FactStore::new());
    let mut negated = Atom::new("e", vec![Term::var("X")]);
    negated.negated = true;
    let rules = vec![
        Rule::fact(Atom::new("e", vec![Term::constant(Value::Integer(1))])),
        Rule::new(Atom::new("d", vec![Term::var("X")]), vec![Atom::new("e", vec![Term::var("X")]), negated]),
    ];
    let evaluator = OptimizedEvaluator::new(rules, fact_store);
    let (facts, stats) = evaluator.evaluate();
    // stratum 0 gives e(1); the second rule is in stratum 1 and starts with an
    // empty delta
    assert_eq!(facts.len(), 1);
    assert_eq!(facts[0].predicate, "e");
    assert_eq!(stats.total_facts_derived, 1);
}

#[test]
fn optimized_statistics_count_rounds_facts_and_applications() {
    let mut store = FactStore::new();
    store.add_fact(Fact::binary("edge", Value::Integer(1), Value::Integer(2)));
    store.add_fact(Fact::binary("edge", Value::Integer(2), Value::Integer(3)));
    let evaluator = OptimizedEvaluator::new(path_rules(), Arc::new(store));
    let (facts, stats) = evaluator.evaluate();
    assert_eq!(facts.len(), 3);
    // Three rounds add 2, 1 and 0 facts; a fourth finds the delta empty.
    assert_eq!(stats.total_iterations, 4);
    assert_eq!(stats.total_facts_derived, 3);
    // Both rules are applied in each of the three rounds with a delta.
    assert_eq!(stats.rule_applications, 6);
    // One lookup per binding before each body atom, per delta position:
    // 3, 7 and 7 over the rounds; the candidates found are 2, 7 and 6.
    assert_eq!(stats.index_lookups, 17);
    assert_eq!(stats.unification_attempts, 15);
}
