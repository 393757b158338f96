use rune_core::facts::{Fact, FactPattern, FactSnapshot, FactStore, PatternArg};
use rune_core::types::Value;

#[test]
fn test_fact_constructors() {
    // Test unary fact
    let unary = Fact::unary("user", Value::string("alice"));
    assert_eq!(unary.predicate.as_str(), "user");
    assert_eq!(unary.args.len(), 1);
    assert_eq!(unary.args[0], Value::string("alice"));

    // Test binary fact
    let binary = Fact::binary("follows", Value::string("alice"), Value::string("bob"));
    assert_eq!(binary.predicate.as_str(), "follows");
    assert_eq!(binary.args.len(), 2);
    assert_eq!(binary.args[0], Value::string("alice"));
    assert_eq!(binary.args[1], Value::string("bob"));

    // Test n-ary fact
    let nary = Fact::new(
        "triple",
        vec![Value::Integer(1), Value::Integer(2), Value::Integer(3)],
    );
    assert_eq!(nary.predicate.as_str(), "triple");
    assert_eq!(nary.args.len(), 3);
}

#[test]
fn test_pattern_matching_edge_cases() {
    // Test exact match with constants
    let fact = Fact::binary("follows", Value::string("alice"), Value::string("bob"));

    let pattern_exact = FactPattern {
        predicate: String::from("follows"),
        args: vec![
            PatternArg::Constant(Value::string("alice")),
            PatternArg::Constant(Value::string("bob")),
        ],
    };
    assert!(fact.matches_pattern(&pattern_exact));

    // Test mismatch with wrong constant
    let pattern_wrong = FactPattern {
        predicate: String::from("follows"),
        args: vec![
            PatternArg::Constant(Value::string("alice")),
            PatternArg::Constant(Value::string("charlie")),
        ],
    };
    assert!(!fact.matches_pattern(&pattern_wrong));

    // Test with all variables
    let pattern_vars = FactPattern {
        predicate: String::from("follows"),
        args: vec![
            PatternArg::Variable("X".into()),
            PatternArg::Variable("Y".into()),
        ],
    };
    assert!(fact.matches_pattern(&pattern_vars));

    // Test mixed constants and variables
    let pattern_mixed = FactPattern {
        predicate: String::from("follows"),
        args: vec![
            PatternArg::Constant(Value::string("alice")),
            PatternArg::Variable("X".into()),
        ],
    };
    assert!(fact.matches_pattern(&pattern_mixed));

    // Test wrong predicate
    let pattern_wrong_pred = FactPattern {
        predicate: String::from("likes"),
        args: vec![
            PatternArg::Variable("X".into()),
            PatternArg::Variable("Y".into()),
        ],
    };
    assert!(!fact.matches_pattern(&pattern_wrong_pred));

    // Test wrong arity
    let pattern_wrong_arity = FactPattern {
        predicate: String::from("follows"),
        args: vec![PatternArg::Variable("X".into())],
    };
    assert!(!fact.matches_pattern(&pattern_wrong_arity));
}

#[test]
fn test_pattern_arg_equality() {
    // Test Variable equality
    let var1 = PatternArg::Variable("X".into());
    let var2 = PatternArg::Variable("X".into());
    let var3 = PatternArg::Variable("Y".into());

    assert_eq!(var1, var2);
    assert_ne!(var1, var3);

    // Test Constant equality
    let const1 = PatternArg::Constant(Value::string("alice"));
    let const2 = PatternArg::Constant(Value::string("alice"));
    let const3 = PatternArg::Constant(Value::string("bob"));

    assert_eq!(const1, const2);
    assert_ne!(const1, const3);

    // Variable vs Constant
    assert_ne!(var1, const1);
}

#[test]
fn test_fact_pattern_equality() {
    let pattern1 = FactPattern {
        predicate: String::from("user"),
        args: vec![PatternArg::Variable("X".into())],
    };

    let pattern2 = FactPattern {
        predicate: String::from("user"),
        args: vec![PatternArg::Variable("X".into())],
    };

    let pattern3 = FactPattern {
        predicate: String::from("admin"),
        args: vec![PatternArg::Variable("X".into())],
    };

    assert_eq!(pattern1, pattern2);
    assert_ne!(pattern1, pattern3);
}

#[test]
fn test_timestamp_ordering() {
    // Facts should have monotonically increasing timestamps
    let fact1 = Fact::unary("user", Value::string("alice"));
    let fact2 = Fact::unary("user", Value::string("bob"));
    let fact3 = Fact::unary("user", Value::string("charlie"));

    assert!(fact2.timestamp > fact1.timestamp);
    assert!(fact3.timestamp > fact2.timestamp);
}

#[test]
fn test_fact_store_basic() {
    let mut store = FactStore::new();

    store.add_fact(Fact::unary("user", Value::string("alice")));

    let pattern = FactPattern {
        predicate: String::from("user"),
        args: vec![PatternArg::Variable("X".into())],
    };

    let results = store.query(&pattern);
    assert_eq!(results.len(), 1);
    assert_eq!(results[0].predicate.as_str(), "user");
}

#[test]
fn test_fact_store_empty_operations() {
    let store = FactStore::new();

    assert!(store.is_empty());
    assert_eq!(store.len(), 0);
    assert_eq!(store.version(), 0);
    assert_eq!(store.all_facts().len(), 0);

    let pattern = FactPattern {
        predicate: String::from("user"),
        args: vec![PatternArg::Variable("X".into())],
    };
    assert_eq!(store.query(&pattern).len(), 0);

    assert_eq!(store.get_by_predicate("user").len(), 0);
}

#[test]
fn test_fact_store_add_and_query() {
    let mut store = FactStore::new();

    store.add_fact(Fact::unary("user", Value::string("alice")));
    store.add_fact(Fact::unary("user", Value::string("bob")));
    store.add_fact(Fact::unary("user", Value::string("charlie")));

    let pattern_var = FactPattern {
        predicate: String::from("user"),
        args: vec![PatternArg::Variable("X".into())],
    };
    let results = store.query(&pattern_var);
    assert_eq!(results.len(), 3);

    let pattern_const = FactPattern {
        predicate: String::from("user"),
        args: vec![PatternArg::Constant(Value::string("alice"))],
    };
    let results = store.query(&pattern_const);
    assert_eq!(results.len(), 1);
    assert_eq!(results[0].args[0], Value::string("alice"));

    let all_users = store.get_by_predicate("user");
    assert_eq!(all_users.len(), 3);
}

#[test]
fn test_fact_store_add_facts_batch() {
    let mut store = FactStore::new();

    let facts = vec![
        Fact::unary("user", Value::string("alice")),
        Fact::unary("user", Value::string("bob")),
        Fact::binary("follows", Value::string("alice"), Value::string("bob")),
    ];

    store.add_facts(facts);

    assert_eq!(store.len(), 3);
    assert_eq!(store.get_by_predicate("user").len(), 2);
    assert_eq!(store.get_by_predicate("follows").len(), 1);
}

#[test]
fn test_fact_store_version_tracking() {
    let mut store = FactStore::new();

    let initial_version = store.version();
    assert_eq!(initial_version, 0);
    assert!(!store.has_changed_since(0));

    store.add_fact(Fact::unary("user", Value::string("alice")));
    let v1 = store.version();
    assert!(v1 > initial_version);
    assert!(store.has_changed_since(initial_version));

    store.add_fact(Fact::unary("user", Value::string("bob")));
    let v2 = store.version();
    assert!(v2 > v1);
    assert!(store.has_changed_since(v1));

    store.clear();
    let v3 = store.version();
    assert!(v3 > v2);
    assert!(store.has_changed_since(v2));
    assert_eq!(store.len(), 0);
}

#[test]
fn test_fact_store_clear() {
    let mut store = FactStore::new();

    store.add_fact(Fact::unary("user", Value::string("alice")));
    store.add_fact(Fact::unary("user", Value::string("bob")));
    store.add_fact(Fact::binary("follows", Value::string("alice"), Value::string("bob")));

    assert_eq!(store.len(), 3);
    assert!(!store.is_empty());

    store.clear();

    assert_eq!(store.len(), 0);
    assert!(store.is_empty());
    assert_eq!(store.all_facts().len(), 0);
    assert_eq!(store.get_by_predicate("user").len(), 0);
    assert_eq!(store.get_by_predicate("follows").len(), 0);
}

#[test]
fn test_fact_snapshot() {
    let mut store = FactStore::new();

    store.add_fact(Fact::unary("user", Value::string("alice")));
    store.add_fact(Fact::unary("user", Value::string("bob")));

    let initial_version = store.version();

    let snapshot = FactSnapshot::from_store(&store);
    assert_eq!(snapshot.facts().len(), 2);
    assert_eq!(snapshot.version(), initial_version);

    store.add_fact(Fact::unary("user", Value::string("charlie")));

    assert_eq!(snapshot.facts().len(), 2);
    assert_eq!(snapshot.version(), initial_version);

    assert_eq!(store.len(), 3);
    assert!(store.version() > initial_version);
}

#[test]
fn test_fact_snapshot_consistency() {
    let mut store = FactStore::new();

    let facts = vec![
        Fact::unary("user", Value::string("alice")),
        Fact::unary("admin", Value::string("bob")),
        Fact::binary("follows", Value::string("alice"), Value::string("bob")),
    ];

    for fact in &facts {
        store.add_fact(fact.clone());
    }

    let snapshot1 = FactSnapshot::from_store(&store);
    let snapshot2 = FactSnapshot::from_store(&store);

    assert_eq!(snapshot1.facts().len(), snapshot2.facts().len());
    assert_eq!(snapshot1.version(), snapshot2.version());

    for fact in &facts {
        assert!(snapshot1.facts().iter().any(|f| f == fact));
        assert!(snapshot2.facts().iter().any(|f| f == fact));
    }
}

#[test]
fn test_fact_store_default() {
    let store = FactStore::default();
    assert!(store.is_empty());
    assert_eq!(store.len(), 0);
    assert_eq!(store.version(), 0);
}

#[test]
fn test_fact_store_complex_queries() {
    let mut store = FactStore::new();

    store.add_fact(Fact::binary("follows", Value::string("alice"), Value::string("bob")));
    store.add_fact(Fact::binary("follows", Value::string("bob"), Value::string("charlie")));
    store.add_fact(Fact::binary("follows", Value::string("alice"), Value::string("charlie")));
    store.add_fact(Fact::binary("likes", Value::string("alice"), Value::string("coding")));

    let pattern1 = FactPattern {
        predicate: String::from("follows"),
        args: vec![PatternArg::Variable("X".into()), PatternArg::Constant(Value::string("bob"))],
    };
    let results = store.query(&pattern1);
    assert_eq!(results.len(), 1);
    assert_eq!(results[0].args[0], Value::string("alice"));

    let pattern2 = FactPattern {
        predicate: String::from("follows"),
        args: vec![PatternArg::Constant(Value::string("alice")), PatternArg::Variable("Y".into())],
    };
    let results = store.query(&pattern2);
    assert_eq!(results.len(), 2);

    let pattern3 = FactPattern {
        predicate: String::from("follows"),
        args: vec![PatternArg::Variable("X".into()), PatternArg::Variable("Y".into())],
    };
    let results = store.query(&pattern3);
    assert_eq!(results.len(), 3);
}

#[test]
fn test_fact_store_keeps_addition_order_per_predicate() {
    let mut store = FactStore::new();
    store.add_fact(Fact::unary("a", Value::Integer(1)));
    store.add_fact(Fact::unary("b", Value::Integer(2)));
    store.add_fact(Fact::unary("a", Value::Integer(3)));
    let a = store.get_by_predicate("a");
    assert_eq!(a.len(), 2);
    assert_eq!(a[0].args[0], Value::Integer(1));
    assert_eq!(a[1].args[0], Value::Integer(3));
    let all = store.all_facts();
    assert_eq!(all[1].predicate.as_str(), "b");
    assert_eq!(store.version(), 3);
}

#[test]
fn store_keeps_timestamps_of_added_facts() {
    let mut store = FactStore::new();
    let a = Fact::unary("a", Value::Integer(1));
    let b = Fact::unary("b", Value::Integer(2));
    let (ta, tb) = (a.timestamp, b.timestamp);
    store.add_fact(a);
    store.add_facts(vec![b]);
    let all = store.all_facts();
    assert_eq!(all.len(), 2);
    assert_eq!(all[0].timestamp, ta);
    assert_eq!(all[1].timestamp, tb);
}
