use rune_core::datalog::aggregation::evaluate_aggregate;
use rune_core::datalog::types::{AggregateAtom, AggregateOp, Atom, Term};
use rune_core::facts::Fact;
use rune_core::types::Value;


#[test]
fn test_count_aggregation() {
    let facts = vec![
        Fact::binary("edge", Value::Integer(1), Value::Integer(2)),
        Fact::binary("edge", Value::Integer(2), Value::Integer(3)),
        Fact::binary("edge", Value::Integer(3), Value::Integer(4)),
    ];

    // count(X) where edge(X, Y)
    let aggregate = AggregateAtom::new(
        AggregateOp::Count,
        "X".to_string(),
        "Count".to_string(),
        vec![Atom::new("edge", vec![Term::var("X"), Term::var("Y")])],
    );

    let result = evaluate_aggregate(&aggregate, &facts).unwrap();
    assert_eq!(result.value, Value::Integer(3));
    assert_eq!(result.count, 3);
}

#[test]
fn test_sum_aggregation() {
    let facts = vec![
        Fact::binary("score", Value::string("alice"), Value::Integer(10)),
        Fact::binary("score", Value::string("bob"), Value::Integer(20)),
        Fact::binary("score", Value::string("charlie"), Value::Integer(30)),
    ];

    // sum(Score) where score(Person, Score)
    let aggregate = AggregateAtom::new(
        AggregateOp::Sum,
        "Score".to_string(),
        "Total".to_string(),
        vec![Atom::new(
            "score",
            vec![Term::var("Person"), Term::var("Score")],
        )],
    );

    let result = evaluate_aggregate(&aggregate, &facts).unwrap();
    assert_eq!(result.value, Value::Integer(60));
}

#[test]
fn test_min_max_aggregation() {
    let facts = vec![
        Fact::binary("value", Value::string("a"), Value::Integer(5)),
        Fact::binary("value", Value::string("b"), Value::Integer(10)),
        Fact::binary("value", Value::string("c"), Value::Integer(3)),
    ];

    // min(V) where value(_, V)
    let min_aggregate = AggregateAtom::new(
        AggregateOp::Min,
        "V".to_string(),
        "Min".to_string(),
        vec![Atom::new("value", vec![Term::var("_"), Term::var("V")])],
    );

    let min_result = evaluate_aggregate(&min_aggregate, &facts).unwrap();
    assert_eq!(min_result.value, Value::Integer(3));

    // max(V) where value(_, V)
    let max_aggregate = AggregateAtom::new(
        AggregateOp::Max,
        "V".to_string(),
        "Max".to_string(),
        vec![Atom::new("value", vec![Term::var("_"), Term::var("V")])],
    );

    let max_result = evaluate_aggregate(&max_aggregate, &facts).unwrap();
    assert_eq!(max_result.value, Value::Integer(10));
}

#[test]
fn test_mean_aggregation() {
    let facts = vec![
        Fact::binary("score", Value::string("test1"), Value::Integer(10)),
        Fact::binary("score", Value::string("test2"), Value::Integer(20)),
        Fact::binary("score", Value::string("test3"), Value::Integer(30)),
    ];

    // mean(Score) where score(_, Score)
    let aggregate = AggregateAtom::new(
        AggregateOp::Mean,
        "Score".to_string(),
        "Avg".to_string(),
        vec![Atom::new(
            "score",
            vec![Term::var("_"), Term::var("Score")],
        )],
    );

    let result = evaluate_aggregate(&aggregate, &facts).unwrap();
    assert_eq!(result.value, Value::Integer(20)); // (10 + 20 + 30) / 3 = 20
}

#[test]
fn aggregation_edge_cases() {
    let facts = vec![
        Fact::binary("score", Value::string("a"), Value::Integer(-7)),
        Fact::binary("score", Value::string("b"), Value::Integer(2)),
        Fact::binary("score", Value::string("a"), Value::Integer(-7)),
    ];
    let mean = AggregateAtom::new(
        AggregateOp::Mean,
        "S".to_string(),
        "M".to_string(),
        vec![Atom::new("score", vec![Term::var("P"), Term::var("S")])],
    );
    // Equal solutions count once: (-7 + 2) / 2 rounds toward zero.
    let r = evaluate_aggregate(&mean, &facts).unwrap();
    assert_eq!(r.count, 2);
    assert_eq!(r.value, Value::Integer(-2));
    // A non-integer value makes a sum fail.
    let facts2 = vec![Fact::binary("score", Value::string("a"), Value::string("x"))];
    let sum = AggregateAtom::new(
        AggregateOp::Sum,
        "S".to_string(),
        "T".to_string(),
        vec![Atom::new("score", vec![Term::var("P"), Term::var("S")])],
    );
    assert!(evaluate_aggregate(&sum, &facts2).is_none());
    // No solution gives no result.
    assert!(evaluate_aggregate(&sum, &[]).is_none());
}
