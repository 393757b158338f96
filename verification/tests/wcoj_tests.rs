use rune_core::datalog::order::compare_values;
use rune_core::datalog::wcoj::{LeapfrogIterator, LeapfrogJoin, TrieNode, ValueIterator, WCOJIndex};
use rune_core::facts::Fact;
use rune_core::text::Trichotomy;
use rune_core::types::Value;

#[test]
fn test_value_iterator_basic() {
    let mut iter = ValueIterator::new(vec![Value::Integer(1), Value::Integer(3), Value::Integer(5)]);

    assert_eq!(iter.key(), Some(&Value::Integer(1)));
    iter.next();
    assert_eq!(iter.key(), Some(&Value::Integer(3)));
    iter.next();
    assert_eq!(iter.key(), Some(&Value::Integer(5)));
    iter.next();
    assert!(iter.at_end());
}

#[test]
fn test_value_iterator_seek() {
    let mut iter =
        ValueIterator::new(vec![Value::Integer(1), Value::Integer(3), Value::Integer(5), Value::Integer(7)]);

    iter.seek(&Value::Integer(4));
    assert_eq!(iter.key(), Some(&Value::Integer(5)));

    iter.seek(&Value::Integer(10));
    assert!(iter.at_end());
}

#[test]
fn test_leapfrog_intersection() {
    let iter1 = ValueIterator::new(vec![Value::Integer(1), Value::Integer(2), Value::Integer(3), Value::Integer(5)]);

    let iter2 = ValueIterator::new(vec![Value::Integer(2), Value::Integer(3), Value::Integer(4), Value::Integer(5)]);

    let mut join = LeapfrogJoin::new(vec![iter1, iter2]);
    let result = join.intersect();

    assert_eq!(result.len(), 3);
    assert!(result.contains(&Value::Integer(2)));
    assert!(result.contains(&Value::Integer(3)));
    assert!(result.contains(&Value::Integer(5)));
}

#[test]
fn test_leapfrog_empty_intersection() {
    let iter1 = ValueIterator::new(vec![Value::Integer(1), Value::Integer(2)]);
    let iter2 = ValueIterator::new(vec![Value::Integer(3), Value::Integer(4)]);

    let mut join = LeapfrogJoin::new(vec![iter1, iter2]);
    let result = join.intersect();

    assert_eq!(result.len(), 0);
}

#[test]
fn test_trie_node_insert() {
    let mut trie = TrieNode::new();

    trie.insert(&[Value::Integer(1), Value::Integer(2)]);
    trie.insert(&[Value::Integer(1), Value::Integer(3)]);
    trie.insert(&[Value::Integer(2), Value::Integer(4)]);

    assert_eq!(trie.values().len(), 2);
    assert!(trie.has_child(&Value::Integer(1)));
    assert!(trie.has_child(&Value::Integer(2)));
}

#[test]
fn test_trie_iterator() {
    let mut trie = TrieNode::new();
    trie.insert(&[Value::Integer(1), Value::Integer(2)]);
    trie.insert(&[Value::Integer(3), Value::Integer(4)]);
    trie.insert(&[Value::Integer(5), Value::Integer(6)]);

    let mut iter = trie.iter();
    assert_eq!(iter.key(), Some(&Value::Integer(1)));
    iter.next();
    assert_eq!(iter.key(), Some(&Value::Integer(3)));
    iter.next();
    assert_eq!(iter.key(), Some(&Value::Integer(5)));
    iter.next();
    assert!(iter.at_end());
}

#[test]
fn test_wcoj_index_creation() {
    let mut index = WCOJIndex::new();

    let facts = vec![
        Fact::binary("edge", Value::Integer(1), Value::Integer(2)),
        Fact::binary("edge", Value::Integer(2), Value::Integer(3)),
    ];

    index.add_facts(&facts);

    // Should have tries for both column orders
    assert!(index.get_trie("edge", &[0, 1]).is_some());
    assert!(index.get_trie("edge", &[1, 0]).is_some());
}

#[test]
fn test_multi_way_join() {
    // Triangle query: R(X,Y), S(Y,Z), T(Z,X)
    let iter_r = ValueIterator::new(vec![Value::Integer(1), Value::Integer(2)]);
    let iter_s = ValueIterator::new(vec![Value::Integer(1), Value::Integer(2), Value::Integer(3)]);
    let iter_t = ValueIterator::new(vec![Value::Integer(1), Value::Integer(2)]);

    let mut join = LeapfrogJoin::new(vec![iter_r, iter_s, iter_t]);

    let result = join.intersect();
    assert!(!result.is_empty());
}

#[test]
fn wcoj_intersection_is_sorted_and_exact() {
    let a = ValueIterator::new(vec![Value::Integer(9), Value::Integer(4), Value::Integer(1), Value::Integer(4)]);
    let b = ValueIterator::new(vec![Value::Integer(4), Value::Integer(9), Value::Integer(7)]);
    let c = ValueIterator::new(vec![Value::Integer(9), Value::Integer(4), Value::Integer(2)]);
    let mut join = LeapfrogJoin::new(vec![a, b, c]);
    assert_eq!(join.intersect(), vec![Value::Integer(4), Value::Integer(9)]);
    // no iterators: no values
    let mut none: LeapfrogJoin<ValueIterator> = LeapfrogJoin::new(vec![]);
    assert!(none.intersect().is_empty());
}

#[test]
fn wcoj_values_order_by_kind_then_value() {
    assert_eq!(compare_values(&Value::Null, &Value::Bool(false)), Trichotomy::Less);
    assert_eq!(compare_values(&Value::Bool(true), &Value::Integer(-5)), Trichotomy::Less);
    assert_eq!(compare_values(&Value::Integer(3), &Value::Integer(2)), Trichotomy::Greater);
    assert_eq!(compare_values(&Value::string("ab"), &Value::string("b")), Trichotomy::Less);
    assert_eq!(compare_values(&Value::Integer(7), &Value::string("a")), Trichotomy::Less);
    assert_eq!(
        compare_values(
            &Value::Array(vec![Value::Integer(1), Value::Integer(2)]),
            &Value::Array(vec![Value::Integer(1), Value::Integer(2)])
        ),
        Trichotomy::Equal
    );
    assert_eq!(
        compare_values(&Value::Array(vec![Value::Integer(1)]), &Value::Array(vec![Value::Integer(1), Value::Null])),
        Trichotomy::Less
    );
    let mut mixed = ValueIterator::new(vec![Value::string("x"), Value::Integer(1), Value::Null, Value::Integer(1)]);
    assert_eq!(mixed.key(), Some(&Value::Null));
    mixed.next();
    assert_eq!(mixed.key(), Some(&Value::Integer(1)));
    mixed.next();
    assert_eq!(mixed.key(), Some(&Value::string("x")));
}

#[test]
fn wcoj_next_tuple_descends_the_tries() {
    let mut r = TrieNode::new();
    r.insert(&[Value::Integer(1), Value::Integer(2)]);
    let mut s = TrieNode::new();
    s.insert(&[Value::Integer(1), Value::Integer(2)]);
    let mut join = LeapfrogJoin::new(vec![r.iter(), s.iter()]);
    assert_eq!(join.next_tuple(), Some(vec![Value::Integer(1), Value::Integer(2)]));
    // both iterators moved on
    assert_eq!(join.next_tuple(), None);

    let mut t = TrieNode::new();
    t.insert(&[Value::Integer(1), Value::Integer(3)]);
    let mut u = TrieNode::new();
    u.insert(&[Value::Integer(1), Value::Integer(2)]);
    let mut differ_below = LeapfrogJoin::new(vec![t.iter(), u.iter()]);
    assert_eq!(differ_below.next_tuple(), None);

    let v = ValueIterator::new(vec![Value::Integer(1)]);
    let w = ValueIterator::new(vec![Value::Integer(2)]);
    let mut differ = LeapfrogJoin::new(vec![v, w]);
    assert_eq!(differ.next_tuple(), None);
}

#[test]
fn wcoj_index_orders_arguments() {
    let mut index = WCOJIndex::new();
    index.add_facts(&[Fact::binary("edge", Value::Integer(1), Value::Integer(2))]);
    let forward = index.get_trie("edge", &[0, 1]).unwrap();
    assert_eq!(forward.values(), &[Value::Integer(1)]);
    let backward = index.get_trie("edge", &[1, 0]).unwrap();
    assert_eq!(backward.values(), &[Value::Integer(2)]);
    assert!(backward.has_child(&Value::Integer(2)));
    assert!(index.get_trie("edge", &[0]).is_none());
    assert!(index.get_trie("node", &[0, 1]).is_none());
}
