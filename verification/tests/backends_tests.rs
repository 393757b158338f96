use rune_core::datalog::backends::{BackendType, HashBackend, RelationBackend, TrieBackend, UnionFindBackend, VecBackend};
use rune_core::facts::Fact;
use rune_core::types::Value;

fn test_fact(pred: &str, arg: i64) -> Fact {
    Fact::new(pred.to_string(), vec![Value::Integer(arg)])
}

#[test]
fn test_vec_backend() {
    let mut backend = VecBackend::new();

    assert_eq!(backend.len(), 0);
    assert!(backend.is_empty());

    // Insert new fact
    assert!(backend.insert(test_fact("test", 1)));
    assert_eq!(backend.len(), 1);

    // Duplicate insert should return false
    assert!(!backend.insert(test_fact("test", 1)));
    assert_eq!(backend.len(), 1);

    // Contains check
    assert!(backend.contains(&test_fact("test", 1)));
    assert!(!backend.contains(&test_fact("test", 2)));

    // Insert different fact
    assert!(backend.insert(test_fact("test", 2)));
    assert_eq!(backend.len(), 2);

    // Iteration
    let facts = backend.iter();
    assert_eq!(facts.len(), 2);
}

#[test]
fn test_hash_backend() {
    let mut backend = HashBackend::new();

    assert_eq!(backend.len(), 0);

    // Insert and deduplication
    assert!(backend.insert(test_fact("edge", 1)));
    assert!(!backend.insert(test_fact("edge", 1)));
    assert_eq!(backend.len(), 1);

    // Contains
    assert!(backend.contains(&test_fact("edge", 1)));

    // Multiple inserts
    for i in 2..=10 {
        backend.insert(test_fact("edge", i));
    }
    assert_eq!(backend.len(), 10);
}

#[test]
fn test_unionfind_backend() {
    let mut backend = UnionFindBackend::new();

    // Basic operations
    backend.insert(Fact::binary("path", Value::Integer(1), Value::Integer(2)));
    backend.insert(Fact::binary("path", Value::Integer(2), Value::Integer(3)));

    assert_eq!(backend.len(), 2);
    assert!(backend.contains(&Fact::binary("path", Value::Integer(1), Value::Integer(2))));
}

#[test]
fn test_backend_selection() {
    // Transitive closure should use UnionFind
    let backend_type = BackendType::select_for_relation("path", 1000);
    assert!(matches!(backend_type, BackendType::UnionFind));

    // Hierarchical should use Trie
    let backend_type = BackendType::select_for_relation("parent_resource", 1000);
    assert!(matches!(backend_type, BackendType::Trie));

    // Small relation should use Vec
    let backend_type = BackendType::select_for_relation("foo", 50);
    assert!(matches!(backend_type, BackendType::Vec));

    // Large general relation should use Hash
    let backend_type = BackendType::select_for_relation("general", 500);
    assert!(matches!(backend_type, BackendType::Hash));
}

#[test]
fn test_vec_backend_with_capacity() {
    let backend = VecBackend::with_capacity(100);
    assert_eq!(backend.len(), 0);
    assert!(backend.is_empty());
}

#[test]
fn test_vec_backend_default() {
    let backend = VecBackend::default();
    assert_eq!(backend.len(), 0);
    assert!(backend.is_empty());
}

#[test]
fn test_hash_backend_with_capacity() {
    let mut backend = HashBackend::with_capacity(100);
    backend.insert(test_fact("test", 1));
    assert_eq!(backend.len(), 1);
}

#[test]
fn test_hash_backend_from_set() {
    let set = vec![test_fact("edge", 1), test_fact("edge", 2)];

    let backend = HashBackend::from_set(set);
    assert_eq!(backend.len(), 2);
    assert!(backend.contains(&test_fact("edge", 1)));
    assert!(backend.contains(&test_fact("edge", 2)));
}

#[test]
fn test_hash_backend_default() {
    let backend = HashBackend::default();
    assert_eq!(backend.len(), 0);
    assert!(backend.is_empty());
}

#[test]
fn test_unionfind_backend_with_capacity() {
    let backend = UnionFindBackend::with_capacity(100);
    assert_eq!(backend.len(), 0);
    assert!(backend.is_empty());
}

#[test]
fn test_unionfind_backend_default() {
    let backend = UnionFindBackend::default();
    assert_eq!(backend.len(), 0);
    assert!(backend.is_empty());
}

#[test]
fn test_backend_extend() {
    let mut backend1 = VecBackend::new();
    backend1.insert(test_fact("test", 1));
    backend1.insert(test_fact("test", 2));

    let mut backend2 = VecBackend::new();
    backend2.insert(test_fact("test", 3));
    backend2.insert(test_fact("test", 4));

    backend1.extend(&backend2);
    assert_eq!(backend1.len(), 4);
    assert!(backend1.contains(&test_fact("test", 3)));
    assert!(backend1.contains(&test_fact("test", 4)));
}

#[test]
fn test_backend_extend_with_duplicates() {
    let mut backend1 = HashBackend::new();
    backend1.insert(test_fact("test", 1));
    backend1.insert(test_fact("test", 2));

    let mut backend2 = HashBackend::new();
    backend2.insert(test_fact("test", 2)); // Duplicate
    backend2.insert(test_fact("test", 3));

    backend1.extend(&backend2);
    assert_eq!(backend1.len(), 3); // Should not add duplicate
}

#[test]
fn test_filter_by_predicate_empty() {
    let backend = VecBackend::new();
    let facts = backend.filter_by_predicate("nonexistent");
    assert!(facts.is_empty());
}

#[test]
fn test_filter_by_predicate_multiple() {
    let mut backend = HashBackend::new();
    backend.insert(test_fact("edge", 1));
    backend.insert(test_fact("edge", 2));
    backend.insert(test_fact("node", 3));
    backend.insert(test_fact("node", 4));
    backend.insert(test_fact("path", 5));

    let edges = backend.filter_by_predicate("edge");
    assert_eq!(edges.len(), 2);

    let nodes = backend.filter_by_predicate("node");
    assert_eq!(nodes.len(), 2);

    let paths = backend.filter_by_predicate("path");
    assert_eq!(paths.len(), 1);
}

#[test]
fn test_backend_selection_edge_cases() {
    // Test backend selection with various edge cases
    let backend_type = BackendType::select_for_relation("", 50);
    assert!(matches!(backend_type, BackendType::Vec));

    let backend_type = BackendType::select_for_relation("complex_path_relation", 10000);
    assert!(matches!(backend_type, BackendType::UnionFind));

    let backend_type = BackendType::select_for_relation("parent_child_tree", 5000);
    assert!(matches!(backend_type, BackendType::Trie));

    let backend_type = BackendType::select_for_relation("descendant", 1000);
    assert!(matches!(backend_type, BackendType::UnionFind));

    let backend_type = BackendType::select_for_relation("prefix_search", 1000);
    assert!(matches!(backend_type, BackendType::Trie));

    let backend_type = BackendType::select_for_relation("resource_hierarchy", 1000);
    assert!(matches!(backend_type, BackendType::Trie));
}

#[test]
fn test_large_dataset() {
    // Test with larger dataset to ensure performance
    let mut backend = HashBackend::new();

    // Insert 1000 facts
    for i in 0..1000 {
        backend.insert(test_fact("large", i));
    }

    assert_eq!(backend.len(), 1000);

    // Test contains on various facts
    assert!(backend.contains(&test_fact("large", 0)));
    assert!(backend.contains(&test_fact("large", 500)));
    assert!(backend.contains(&test_fact("large", 999)));
    assert!(!backend.contains(&test_fact("large", 1000)));
}

#[test]
fn test_vec_backend_iteration_order() {
    let mut backend = VecBackend::new();

    // Insert facts in specific order
    backend.insert(test_fact("test", 3));
    backend.insert(test_fact("test", 1));
    backend.insert(test_fact("test", 2));

    let facts = backend.iter();
    assert_eq!(facts.len(), 3);
    // VecBackend should preserve insertion order
    assert_eq!(facts[0], test_fact("test", 3));
    assert_eq!(facts[1], test_fact("test", 1));
    assert_eq!(facts[2], test_fact("test", 2));
}

#[test]
fn test_clone_backends() {
    // Test that cloning works correctly for all backends
    let mut original = VecBackend::new();
    original.insert(test_fact("test", 1));

    let mut cloned = original.clone();
    cloned.insert(test_fact("test", 2));

    // Original should not be affected
    assert_eq!(original.len(), 1);
    assert_eq!(cloned.len(), 2);
}

#[test]
fn test_trie_backend() {
    let mut backend = TrieBackend::new();

    // Insert facts with different predicates
    backend.insert(test_fact("parent", 1));
    backend.insert(test_fact("parent", 2));
    backend.insert(test_fact("child", 3));

    assert_eq!(backend.len(), 3);

    // Predicate filtering
    let parents = backend.filter_by_predicate("parent");
    assert_eq!(parents.len(), 2);

    let children = backend.filter_by_predicate("child");
    assert_eq!(children.len(), 1);
}

fn check_backend<B: RelationBackend>(mut backend: B) {
    assert!(backend.is_empty());

    backend.insert(test_fact("test", 1));
    assert_eq!(backend.len(), 1);
    assert!(!backend.is_empty());

    backend.clear();
    assert!(backend.is_empty());
}

#[test]
fn test_relation_backend_trait() {
    // Test that all backends implement the trait correctly
    check_backend(VecBackend::new());
    check_backend(HashBackend::new());
    check_backend(UnionFindBackend::new());
    check_backend(TrieBackend::new());
}

#[test]
fn test_trie_backend_with_capacity() {
    let backend = TrieBackend::with_capacity(100);
    assert_eq!(backend.len(), 0);
    assert!(backend.is_empty());
}

#[test]
fn test_trie_backend_default() {
    let backend = TrieBackend::default();
    assert_eq!(backend.len(), 0);
    assert!(backend.is_empty());
}

#[test]
fn test_trie_backend_predicate_filtering() {
    let mut backend = TrieBackend::new();

    // Insert facts with different predicates
    for i in 0..5 {
        backend.insert(test_fact("pred_a", i));
    }
    for i in 5..10 {
        backend.insert(test_fact("pred_b", i));
    }

    assert_eq!(backend.len(), 10);

    let pred_a_facts = backend.filter_by_predicate("pred_a");
    assert_eq!(pred_a_facts.len(), 5);

    let pred_b_facts = backend.filter_by_predicate("pred_b");
    assert_eq!(pred_b_facts.len(), 5);

    let nonexistent = backend.filter_by_predicate("pred_c");
    assert_eq!(nonexistent.len(), 0);
}

#[test]
fn test_clear_operations() {
    // Test clear on all backend types
    let mut vec_backend = VecBackend::new();
    vec_backend.insert(test_fact("test", 1));
    vec_backend.clear();
    assert_eq!(vec_backend.len(), 0);

    let mut hash_backend = HashBackend::new();
    hash_backend.insert(test_fact("test", 1));
    hash_backend.clear();
    assert_eq!(hash_backend.len(), 0);

    let mut unionfind_backend = UnionFindBackend::new();
    unionfind_backend.insert(test_fact("test", 1));
    unionfind_backend.clear();
    assert_eq!(unionfind_backend.len(), 0);

    let mut trie_backend = TrieBackend::new();
    trie_backend.insert(test_fact("test", 1));
    trie_backend.clear();
    assert_eq!(trie_backend.len(), 0);
}

fn s(text: &str) -> Value {
    Value::String(text.to_string())
}

#[test]
fn test_trie_backend_prefix_lookup() {
    let mut backend = TrieBackend::new();

    // Insert facts with hierarchical structure
    backend.insert(Fact::new("file".to_string(), vec![s("/usr"), s("dir")]));
    backend.insert(Fact::new("file".to_string(), vec![s("/usr/bin"), s("dir")]));
    backend.insert(Fact::new("file".to_string(), vec![s("/usr/bin/ls"), s("file")]));
    backend.insert(Fact::new("file".to_string(), vec![s("/usr/local"), s("dir")]));
    backend.insert(Fact::new("permission".to_string(), vec![s("/usr"), s("read")]));

    // Test predicate prefix lookup
    let file_facts = backend.find_predicate_prefix("file");
    assert_eq!(file_facts.len(), 4);

    // Test full prefix lookup
    let usr_prefix = vec![s("file"), s("/usr")];
    let usr_facts = backend.find_prefix(&usr_prefix);
    assert_eq!(usr_facts.len(), 1); // Only exact "/usr" fact

    // Test pattern matching with wildcards
    let pattern = vec![
        Some(s("file")),
        None, // Any first argument
        Some(s("dir")),
    ];
    let dir_facts = backend.find_pattern(&pattern);
    assert_eq!(dir_facts.len(), 3); // Three directory facts

    // Verify the directory facts
    for fact in &dir_facts {
        assert_eq!(fact.predicate, "file");
        assert_eq!(fact.args[1], s("dir"));
    }
}

#[test]
fn test_trie_backend_pattern_matching() {
    let mut backend = TrieBackend::new();

    // Insert various facts
    backend.insert(Fact::new("edge".to_string(), vec![Value::Integer(1), Value::Integer(2)]));
    backend.insert(Fact::new("edge".to_string(), vec![Value::Integer(2), Value::Integer(3)]));
    backend.insert(Fact::new("edge".to_string(), vec![Value::Integer(1), Value::Integer(3)]));
    backend.insert(Fact::new("node".to_string(), vec![Value::Integer(1), s("start")]));

    // Pattern: edge(1, ?)
    let pattern = vec![Some(s("edge")), Some(Value::Integer(1)), None];
    let edges_from_1 = backend.find_pattern(&pattern);
    assert_eq!(edges_from_1.len(), 2); // edge(1,2) and edge(1,3)

    // Pattern: edge(?, 3)
    let pattern = vec![Some(s("edge")), None, Some(Value::Integer(3))];
    let edges_to_3 = backend.find_pattern(&pattern);
    assert_eq!(edges_to_3.len(), 2); // edge(2,3) and edge(1,3)

    // Pattern: node(?, ?)
    let pattern = vec![Some(s("node")), None, None];
    let all_nodes = backend.find_pattern(&pattern);
    assert_eq!(all_nodes.len(), 1);
}

#[test]
fn test_trie_backend_duplicate_handling() {
    let mut backend = TrieBackend::new();

    let fact = Fact::new("test".to_string(), vec![Value::Integer(1), Value::Integer(2)]);

    // First insert should succeed
    assert!(backend.insert(fact.clone()));
    assert_eq!(backend.len(), 1);

    // Duplicate insert should return false
    assert!(!backend.insert(fact.clone()));
    assert_eq!(backend.len(), 1);
}

#[test]
fn test_trie_backend_empty_patterns() {
    let mut backend = TrieBackend::new();

    backend.insert(Fact::new("fact1".to_string(), vec![]));
    backend.insert(Fact::new("fact2".to_string(), vec![Value::Integer(1)]));

    // Empty prefix should return all facts
    let all = backend.find_prefix(&[]);
    assert_eq!(all.len(), 2);

    // Pattern with just predicate
    let pattern = vec![Some(s("fact1"))];
    let results = backend.find_pattern(&pattern);
    assert_eq!(results.len(), 1);
}

#[test]
fn trie_pattern_also_returns_paths_one_shorter() {
    let mut backend = TrieBackend::new();
    backend.insert(Fact::new("p".to_string(), vec![Value::Integer(1)]));
    backend.insert(Fact::new("p".to_string(), vec![Value::Integer(1), Value::Integer(9)]));
    backend.insert(Fact::new("p".to_string(), vec![Value::Integer(2), Value::Integer(9)]));
    // p(1, 9) matches the whole pattern; p(1) agrees with all but the last element
    let r = backend.find_pattern(&[Some(s("p")), Some(Value::Integer(1)), Some(Value::Integer(5))]);
    assert_eq!(r.len(), 1);
    let r = backend.find_pattern(&[Some(s("p")), Some(Value::Integer(1)), None]);
    assert_eq!(r.len(), 2);
    // an empty pattern finds nothing
    assert_eq!(backend.find_pattern(&[]).len(), 0);
    // the trie answers filter_by_predicate through its paths
    assert_eq!(backend.find_predicate_prefix("p").len(), 3);
    assert!(backend.contains(&Fact::new("p".to_string(), vec![Value::Integer(2), Value::Integer(9)])));
}
