use rune_core::datalog::evaluation::{stratify_rules, Evaluator};
use rune_core::datalog::magic_sets::Query;
use rune_core::datalog::types::{Atom, Rule, Term};
use rune_core::facts::{Fact, FactStore};
use rune_core::types::Value;
use std::sync::Arc;

#[test]
fn test_evaluate_facts() {
    let fact_store = Arc::new(FactStore::new());

    let rules = vec![
        Rule::fact(Atom::new("edge", vec![Term::constant(Value::Integer(1)), Term::constant(Value::Integer(2))])),
        Rule::fact(Atom::new("edge", vec![Term::constant(Value::Integer(2)), Term::constant(Value::Integer(3))])),
    ];

    let evaluator = Evaluator::new(rules, fact_store);
    let result = evaluator.evaluate();

    assert_eq!(result.facts.len(), 2);
}

#[test]
fn test_evaluate_simple_rule() {
    let mut store = FactStore::new();
    store.add_fact(Fact::binary("edge", Value::Integer(1), Value::Integer(2)));
    store.add_fact(Fact::binary("edge", Value::Integer(2), Value::Integer(3)));
    let fact_store = Arc::new(store);

    let rules = vec![Rule::new(
        Atom::new("path", vec![Term::var("X"), Term::var("Y")]),
        vec![Atom::new("edge", vec![Term::var("X"), Term::var("Y")])],
    )];

    let evaluator = Evaluator::new(rules, fact_store);
    let result = evaluator.evaluate();

    let path_facts: Vec<_> = result.facts.iter().filter(|f| f.predicate.as_str() == "path").collect();

    assert_eq!(path_facts.len(), 2);
}

#[test]
fn test_evaluate_transitive_closure() {
    let mut store = FactStore::new();
    store.add_fact(Fact::binary("edge", Value::Integer(1), Value::Integer(2)));
    store.add_fact(Fact::binary("edge", Value::Integer(2), Value::Integer(3)));
    let fact_store = Arc::new(store);

    let rules = vec![
        Rule::new(
            Atom::new("path", vec![Term::var("X"), Term::var("Y")]),
            vec![Atom::new("edge", vec![Term::var("X"), Term::var("Y")])],
        ),
        Rule::new(
            Atom::new("path", vec![Term::var("X"), Term::var("Z")]),
            vec![
                Atom::new("path", vec![Term::var("X"), Term::var("Y")]),
                Atom::new("edge", vec![Term::var("Y"), Term::var("Z")]),
            ],
        ),
    ];

    let evaluator = Evaluator::new(rules, fact_store);
    let result = evaluator.evaluate();

    let path_facts: Vec<_> = result.facts.iter().filter(|f| f.predicate.as_str() == "path").collect();

    assert_eq!(path_facts.len(), 3);
}

#[test]
fn negation_keeps_only_unmatched_bindings() {
    let mut store = FactStore::new();
    store.add_fact(Fact::unary("node", Value::Integer(1)));
    store.add_fact(Fact::unary("node", Value::Integer(2)));
    store.add_fact(Fact::unary("blocked", Value::Integer(2)));
    let rules = vec![Rule::new(
        Atom::new("open", vec![Term::var("X")]),
        vec![
            Atom::new("node", vec![Term::var("X")]),
            Atom::negated("blocked", vec![Term::var("X")]),
        ],
    )];
    let result = Evaluator::new(rules, Arc::new(store)).evaluate();
    let open: Vec<_> = result.facts.iter().filter(|f| f.predicate.as_str() == "open").collect();
    assert_eq!(open.len(), 1);
    assert_eq!(open[0].args[0], Value::Integer(1));
}

#[test]
fn evaluation_counts_rounds_until_nothing_new() {
    let mut store = FactStore::new();
    store.add_fact(Fact::binary("edge", Value::Integer(1), Value::Integer(2)));
    store.add_fact(Fact::binary("edge", Value::Integer(2), Value::Integer(3)));
    let rules = vec![
        Rule::new(
            Atom::new("path", vec![Term::var("X"), Term::var("Y")]),
            vec![Atom::new("edge", vec![Term::var("X"), Term::var("Y")])],
        ),
        Rule::new(
            Atom::new("path", vec![Term::var("X"), Term::var("Z")]),
            vec![
                Atom::new("path", vec![Term::var("X"), Term::var("Y")]),
                Atom::new("edge", vec![Term::var("Y"), Term::var("Z")]),
            ],
        ),
    ];
    let result = Evaluator::with_provenance(rules, Arc::new(store)).evaluate();
    // round 1: path(1,2), path(2,3); round 2: path(1,3); round 3: nothing new
    assert_eq!(result.iterations, 3);
    assert_eq!(result.facts.len(), 5);
    assert!(result.provenance.stats().enabled);
}

#[test]
fn test_goal_directed_evaluation_with_magic_sets() {
    let mut store = FactStore::new();
    store.add_fact(Fact::binary("edge", Value::Integer(1), Value::Integer(2)));
    store.add_fact(Fact::binary("edge", Value::Integer(2), Value::Integer(3)));
    store.add_fact(Fact::binary("edge", Value::Integer(3), Value::Integer(4)));
    store.add_fact(Fact::binary("edge", Value::Integer(4), Value::Integer(5)));
    store.add_fact(Fact::binary("edge", Value::Integer(10), Value::Integer(11)));
    store.add_fact(Fact::binary("edge", Value::Integer(11), Value::Integer(12)));
    let fact_store = Arc::new(store);

    let rules = vec![
        Rule::new(
            Atom::new("path", vec![Term::var("X"), Term::var("Y")]),
            vec![Atom::new("edge", vec![Term::var("X"), Term::var("Y")])],
        ),
        Rule::new(
            Atom::new("path", vec![Term::var("X"), Term::var("Z")]),
            vec![
                Atom::new("path", vec![Term::var("X"), Term::var("Y")]),
                Atom::new("edge", vec![Term::var("Y"), Term::var("Z")]),
            ],
        ),
    ];

    let evaluator = Evaluator::new(rules, fact_store);

    let query = Query::new("path", vec![Some(Value::Integer(1)), None]);

    let goal_directed_result = evaluator.evaluate_query(query);

    let full_result = evaluator.evaluate();

    assert!(!goal_directed_result.facts.is_empty() || goal_directed_result.iterations > 0);

    let all_paths: Vec<_> = full_result.facts.iter().filter(|f| f.predicate.as_str() == "path").collect();

    assert!(all_paths.len() >= 6);
}

#[test]
fn negated_predicate_is_stratified_below_its_user() {
    let allowed = Rule::new(
        Atom::new("allowed", vec![Term::var("X")]),
        vec![Atom::new("user", vec![Term::var("X")]), Atom::negated("blocked", vec![Term::var("X")])],
    );
    let blocked = Rule::new(
        Atom::new("blocked", vec![Term::var("X")]),
        vec![Atom::new("banned", vec![Term::var("X")])],
    );
    let strata = stratify_rules(&vec![allowed, blocked]);
    assert_eq!(strata.len(), 2);
    assert_eq!(strata[0].len(), 1);
    assert_eq!(strata[0][0].head.predicate.as_str(), "blocked");
    assert_eq!(strata[1].len(), 1);
    assert_eq!(strata[1][0].head.predicate.as_str(), "allowed");
    assert_eq!(strata[1][0].stratum, 1);
}

#[test]
fn negation_over_a_later_rule_filters_the_derived_facts() {
    let mut st = FactStore::new();
    st.add_fact(Fact::new("user", vec![Value::string("alice")]));
    st.add_fact(Fact::new("user", vec![Value::string("bob")]));
    st.add_fact(Fact::new("banned", vec![Value::string("bob")]));
    let rules = vec![
        Rule::new(
            Atom::new("allowed", vec![Term::var("X")]),
            vec![Atom::new("user", vec![Term::var("X")]), Atom::negated("blocked", vec![Term::var("X")])],
        ),
        Rule::new(Atom::new("blocked", vec![Term::var("X")]), vec![Atom::new("banned", vec![Term::var("X")])]),
    ];
    let result = Evaluator::new(rules, Arc::new(st)).evaluate();
    assert!(result.facts.contains(&Fact::new("allowed", vec![Value::string("alice")])));
    assert!(!result.facts.contains(&Fact::new("allowed", vec![Value::string("bob")])));
}

#[test]
fn result_is_closed_and_supported_across_strata() {
    let mut st = FactStore::new();
    for n in 1..=3 {
        st.add_fact(Fact::unary("node", Value::Integer(n)));
    }
    st.add_fact(Fact::binary("edge", Value::Integer(1), Value::Integer(2)));
    st.add_fact(Fact::binary("edge", Value::Integer(2), Value::Integer(3)));
    let rules = vec![
        Rule::new(
            Atom::new("reach", vec![Term::var("X"), Term::var("Y")]),
            vec![Atom::new("edge", vec![Term::var("X"), Term::var("Y")])],
        ),
        Rule::new(
            Atom::new("reach", vec![Term::var("X"), Term::var("Z")]),
            vec![
                Atom::new("reach", vec![Term::var("X"), Term::var("Y")]),
                Atom::new("edge", vec![Term::var("Y"), Term::var("Z")]),
            ],
        ),
        Rule::new(
            Atom::new("unreach", vec![Term::var("X"), Term::var("Y")]),
            vec![
                Atom::new("node", vec![Term::var("X")]),
                Atom::new("node", vec![Term::var("Y")]),
                Atom::negated("reach", vec![Term::var("X"), Term::var("Y")]),
            ],
        ),
    ];
    let result = Evaluator::new(rules, Arc::new(st)).evaluate();
    let reach = [(1, 2), (2, 3), (1, 3)];
    for x in 1..=3 {
        for y in 1..=3 {
            let r = Fact::binary("reach", Value::Integer(x), Value::Integer(y));
            let u = Fact::binary("unreach", Value::Integer(x), Value::Integer(y));
            let reachable = reach.contains(&(x, y));
            assert_eq!(result.facts.contains(&r), reachable);
            assert_eq!(result.facts.contains(&u), !reachable);
        }
    }
    // The store's five facts, three reach facts and six unreach facts.
    assert_eq!(result.facts.len(), 14);
}
