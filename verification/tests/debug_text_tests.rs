use rune_core::debug_text::{fact_debug, value_debug, values_debug};
use rune_core::types::{AttrMap, Value};
use std::collections::BTreeMap;

#[test]
fn scalar_values_show_their_variant() {
    assert_eq!(value_debug(&Value::Null), "Null");
    assert_eq!(value_debug(&Value::Bool(false)), "Bool(false)");
    assert_eq!(value_debug(&Value::Integer(-42)), "Integer(-42)");
    assert_eq!(value_debug(&Value::Integer(i64::MIN)), format!("Integer({})", i64::MIN));
}

#[test]
fn strings_are_escaped_as_std_debug_escapes_them() {
    for s in ["plain", "quote \" and 'apostrophe'", "tab\tnew\nline\\", "e\u{301} \u{7f} \u{1F600}"] {
        assert_eq!(value_debug(&Value::string(s)), format!("String({:?})", s));
    }
}

#[test]
fn arrays_and_objects_show_their_contents() {
    let arr = Value::Array(vec![Value::Null, Value::Bool(true), Value::string("x")]);
    assert_eq!(value_debug(&arr), r#"Array([Null, Bool(true), String("x")])"#);
    let mut m = AttrMap::new();
    m.insert("b".to_string(), Value::Integer(2));
    m.insert("a".to_string(), Value::Integer(1));
    let obj = Value::Object(m);
    // Like a BTreeMap's debug text: entries in key order.
    let mut reference: BTreeMap<String, i64> = BTreeMap::new();
    reference.insert("b".to_string(), 2);
    reference.insert("a".to_string(), 1);
    let expected = format!("{:?}", reference).replace("1", "Integer(1)").replace("2", "Integer(2)");
    assert_eq!(value_debug(&obj), format!("Object({})", expected));
    assert_eq!(value_debug(&obj), r#"Object({"a": Integer(1), "b": Integer(2)})"#);
}

#[test]
fn lists_and_facts_show_like_derived_debug() {
    assert_eq!(values_debug(&vec![]), "[]");
    assert_eq!(values_debug(&vec![Value::Integer(1), Value::string("a")]), r#"[Integer(1), String("a")]"#);
    assert_eq!(
        fact_debug("user", &vec![Value::string("alice")], 7),
        r#"Fact { predicate: "user", args: [String("alice")], timestamp: 7 }"#
    );
}
