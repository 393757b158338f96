use rune_core::datalog::magic_sets::{MagicSetsTransformer, Query};
use rune_core::datalog::types::{Atom, Rule, Term};
use rune_core::types::Value;

#[test]
fn test_query_binding_pattern() {
    let query = Query::new(
        "path",
        vec![Some(Value::String("a".to_string())), Some(Value::String("b".to_string()))],
    );
    assert_eq!(query.binding_pattern(), "bb");

    let query = Query::new("path", vec![Some(Value::String("a".to_string())), None]);
    assert_eq!(query.binding_pattern(), "bf");

    let query = Query::unbound("path", 2);
    assert_eq!(query.binding_pattern(), "ff");
}

#[test]
fn test_simple_magic_sets_transformation() {
    let rules = vec![
        Rule::new(
            Atom::new("path", vec![Term::var("X"), Term::var("Y")]),
            vec![Atom::new("edge", vec![Term::var("X"), Term::var("Y")])],
        ),
        Rule::new(
            Atom::new("path", vec![Term::var("X"), Term::var("Z")]),
            vec![
                Atom::new("path", vec![Term::var("X"), Term::var("Y")]),
                Atom::new("edge", vec![Term::var("Y"), Term::var("Z")]),
            ],
        ),
    ];

    let query = Query::new("path", vec![Some(Value::String("a".to_string())), None]);

    let mut transformer = MagicSetsTransformer::new(rules);
    let transformed = transformer.transform(&query);

    assert!(!transformer.magic_predicates().is_empty());

    let seed_facts: Vec<_> = transformed.iter().filter(|r| r.is_fact()).collect();
    assert!(!seed_facts.is_empty());

    let has_magic = transformed
        .iter()
        .any(|rule| rule.body.iter().any(|atom| transformer.is_magic_predicate(atom.predicate.as_str())));
    assert!(has_magic);
}

#[test]
fn test_adorned_predicate_generation() {
    let rules = vec![Rule::new(
        Atom::new("ancestor", vec![Term::var("X"), Term::var("Y")]),
        vec![Atom::new("parent", vec![Term::var("X"), Term::var("Y")])],
    )];

    let mut transformer = MagicSetsTransformer::new(rules);

    let adorned = transformer.get_adorned_predicate("ancestor", "bf");
    assert_eq!(adorned.as_str(), "ancestor_bf");

    let adorned = transformer.get_adorned_predicate("parent", "bb");
    assert_eq!(adorned.as_str(), "parent_bb");
}

#[test]
fn test_magic_predicate_generation() {
    let rules = vec![];
    let mut transformer = MagicSetsTransformer::new(rules);

    let adorned = "path_bf";
    let magic = transformer.get_magic_predicate(adorned);
    assert_eq!(magic.as_str(), "magic_path_bf");
    assert!(transformer.is_magic_predicate("magic_path_bf"));
}

#[test]
fn test_no_transformation_for_unbound_query() {
    let rules = vec![Rule::new(
        Atom::new("node", vec![Term::var("X")]),
        vec![Atom::new("edge", vec![Term::var("X"), Term::var("_")])],
    )];

    let query = Query::unbound("node", 1);

    let mut transformer = MagicSetsTransformer::new(rules);
    let transformed = transformer.transform(&query);

    let seed_facts: Vec<_> = transformed.iter().filter(|r| r.is_fact()).collect();
    assert!(seed_facts.is_empty());
}

#[test]
fn test_negation_handling() {
    let rules = vec![Rule::new(
        Atom::new("unreachable", vec![Term::var("X")]),
        vec![
            Atom::new("node", vec![Term::var("X")]),
            Atom::negated("path", vec![Term::constant(Value::String("root".to_string())), Term::var("X")]),
        ],
    )];

    let query = Query::new("unreachable", vec![None]);

    let mut transformer = MagicSetsTransformer::new(rules);
    let transformed = transformer.transform(&query);

    let magic_for_negated = transformed.iter().any(|rule| rule.head.predicate.as_str().contains("magic_path"));
    assert!(!magic_for_negated, "Should not generate magic rules for negated atoms");
}

#[test]
fn transformed_program_has_seed_magic_and_filtered_rules_in_order() {
    let rules = vec![Rule::new(
        Atom::new("path", vec![Term::var("X"), Term::var("Y")]),
        vec![Atom::new("edge", vec![Term::var("X"), Term::var("Y")])],
    )];
    let query = Query::new("path", vec![Some(Value::Integer(1)), None]);
    let mut transformer = MagicSetsTransformer::new(rules);
    let transformed = transformer.transform(&query);
    // seed fact, one magic rule for the body atom, one filtered adorned rule
    assert_eq!(transformed.len(), 3);
    assert_eq!(transformed[0].head.predicate.as_str(), "magic_path_bf");
    assert!(transformed[0].is_fact());
    assert_eq!(transformed[1].head.predicate.as_str(), "magic_edge");
    assert_eq!(transformed[2].head.predicate.as_str(), "path_bf");
    assert_eq!(transformed[2].body[0].predicate.as_str(), "magic_path_bf");
    assert_eq!(transformed[2].body[0].terms.len(), 1);
    assert_eq!(transformer.get_transformed_rules().len(), 3);
    assert_eq!(transformer.get_transformed_rules()[2].head.predicate.as_str(), "path_bf");
}
