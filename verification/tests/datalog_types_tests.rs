use rune_core::datalog::types::{Atom, Rule, Substitution, Term};
use rune_core::types::Value;


#[test]
fn test_term_creation() {
    let var = Term::var("X");
    assert!(var.is_variable());
    assert_eq!(var.as_variable(), Some("X"));

    let const_term = Term::constant(Value::Integer(42));
    assert!(const_term.is_constant());
    assert_eq!(const_term.as_constant(), Some(&Value::Integer(42)));
}

#[test]
fn test_atom_creation() {
    let atom = Atom::new(
        "edge",
        vec![Term::var("X"), Term::constant(Value::string("alice"))],
    );

    assert_eq!(atom.predicate.as_str(), "edge");
    assert_eq!(atom.arity(), 2);
    assert_eq!(atom.variables(), vec!["X"]);
    assert!(!atom.is_ground());
}

#[test]
fn test_rule_safety() {
    // Safe rule: path(X, Y) :- edge(X, Y)
    let rule = Rule::new(
        Atom::new("path", vec![Term::var("X"), Term::var("Y")]),
        vec![Atom::new("edge", vec![Term::var("X"), Term::var("Y")])],
    );
    assert!(rule.is_safe());

    // Unsafe rule: path(X, Y) :- edge(Z, W)
    let unsafe_rule = Rule::new(
        Atom::new("path", vec![Term::var("X"), Term::var("Y")]),
        vec![Atom::new("edge", vec![Term::var("Z"), Term::var("W")])],
    );
    assert!(!unsafe_rule.is_safe());
}

#[test]
fn test_substitution() {
    let mut sub = Substitution::new();
    sub.bind("X".to_string(), Value::Integer(42));
    sub.bind("Y".to_string(), Value::string("hello"));

    assert_eq!(sub.get("X"), Some(&Value::Integer(42)));
    assert_eq!(sub.get("Y"), Some(&Value::string("hello")));
    assert_eq!(sub.get("Z"), None);

    // Apply to term
    let var_term = Term::var("X");
    let applied = sub.apply_to_term(&var_term);
    assert_eq!(applied, Term::Constant(Value::Integer(42)));
}

#[test]
fn test_substitution_merge() {
    let mut sub1 = Substitution::new();
    sub1.bind("X".to_string(), Value::Integer(1));

    let mut sub2 = Substitution::new();
    sub2.bind("Y".to_string(), Value::Integer(2));

    let merged = sub1.merge(&sub2).unwrap();
    assert_eq!(merged.get("X"), Some(&Value::Integer(1)));
    assert_eq!(merged.get("Y"), Some(&Value::Integer(2)));

    // Incompatible substitutions
    let mut sub3 = Substitution::new();
    sub3.bind("X".to_string(), Value::Integer(99));

    assert!(sub1.merge(&sub3).is_none());
}

