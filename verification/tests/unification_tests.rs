use rune_core::datalog::types::{Atom, Substitution, Term};
use rune_core::datalog::unification::{
    find_matching_facts, ground_atom, unify_atom_with_fact, unify_atoms, unify_terms,
};
use rune_core::facts::Fact;
use rune_core::types::Value;


#[test]
fn test_unify_terms_constant_constant() {
    let mut sub = Substitution::new();
    let t1 = Term::Constant(Value::Integer(42));
    let t2 = Term::Constant(Value::Integer(42));

    assert!(unify_terms(&t1, &t2, &mut sub));
    assert!(sub.is_empty());
}

#[test]
fn test_unify_terms_variable_constant() {
    let mut sub = Substitution::new();
    let var = Term::var("X");
    let const_term = Term::Constant(Value::Integer(42));

    assert!(unify_terms(&var, &const_term, &mut sub));
    assert_eq!(sub.get("X"), Some(&Value::Integer(42)));
}

#[test]
fn test_unify_terms_variable_variable() {
    let mut sub = Substitution::new();
    let v1 = Term::var("X");
    let v2 = Term::var("Y");

    assert!(unify_terms(&v1, &v2, &mut sub));
    // One should be bound to the other
    assert!(!sub.is_empty());
}

#[test]
fn test_unify_atom_with_fact() {
    let atom = Atom::new(
        "edge",
        vec![Term::var("X"), Term::constant(Value::Integer(2))],
    );
    let fact = Fact::binary("edge", Value::Integer(1), Value::Integer(2));

    let sub = unify_atom_with_fact(&atom, &fact).unwrap();
    assert_eq!(sub.get("X"), Some(&Value::Integer(1)));
}

#[test]
fn test_unify_atom_with_fact_fail() {
    let atom = Atom::new(
        "edge",
        vec![Term::var("X"), Term::constant(Value::Integer(3))],
    );
    let fact = Fact::binary("edge", Value::Integer(1), Value::Integer(2));

    assert!(unify_atom_with_fact(&atom, &fact).is_none());
}

#[test]
fn test_find_matching_facts() {
    let facts = vec![
        Fact::binary("edge", Value::Integer(1), Value::Integer(2)),
        Fact::binary("edge", Value::Integer(2), Value::Integer(3)),
        Fact::binary("edge", Value::Integer(1), Value::Integer(4)),
    ];

    let atom = Atom::new(
        "edge",
        vec![Term::constant(Value::Integer(1)), Term::var("Y")],
    );

    let matches = find_matching_facts(&atom, &facts);
    assert_eq!(matches.len(), 2);

    // Check substitutions
    let y_values: Vec<_> = matches.iter().filter_map(|(_, sub)| sub.get("Y")).collect();
    assert!(y_values.contains(&&Value::Integer(2)));
    assert!(y_values.contains(&&Value::Integer(4)));
}

#[test]
fn test_ground_atom() {
    let atom = Atom::new("path", vec![Term::var("X"), Term::var("Y")]);

    let mut sub = Substitution::new();
    sub.bind("X".to_string(), Value::Integer(1));
    sub.bind("Y".to_string(), Value::Integer(2));

    let fact = ground_atom(&atom, &sub).unwrap();
    assert_eq!(fact.predicate.as_str(), "path");
    assert_eq!(fact.args[0], Value::Integer(1));
    assert_eq!(fact.args[1], Value::Integer(2));
}

#[test]
fn test_ground_atom_incomplete() {
    let atom = Atom::new("path", vec![Term::var("X"), Term::var("Y")]);

    let mut sub = Substitution::new();
    sub.bind("X".to_string(), Value::Integer(1));
    // Y not bound

    assert!(ground_atom(&atom, &sub).is_none());
}

