use rune_core::datalog::bridge::CedarDatalogBridge;
use rune_core::facts::Fact;
use rune_core::request::Request;
use rune_core::types::{Action, Entity, Principal, Resource, Value};


#[test]
fn test_principal_to_facts() {
    let principal = Principal::new("User", "alice")
        .entity
        .with_attribute("role", Value::string("admin"))
        .with_attribute("department", Value::string("engineering"));

    let principal = Principal { entity: principal };

    let facts = CedarDatalogBridge::principal_to_facts(&principal);

    // Should have: 1 identity + 2 attributes = 3 facts
    assert_eq!(facts.len(), 3);

    // Check principal identity fact
    let identity_fact = facts.iter().find(|f| f.predicate.as_str() == "principal");
    assert!(identity_fact.is_some());

    // Check attribute facts
    let attr_facts: Vec<_> = facts
        .iter()
        .filter(|f| f.predicate.as_str() == "principal_attr")
        .collect();
    assert_eq!(attr_facts.len(), 2);
}

#[test]
fn test_resource_to_facts() {
    let resource = Resource::new("File", "/tmp/secret.txt")
        .entity
        .with_attribute("owner", Value::string("alice"))
        .with_attribute("confidential", Value::Bool(true));

    let resource = Resource { entity: resource };

    let facts = CedarDatalogBridge::resource_to_facts(&resource);

    // Should have: 1 identity + 2 attributes = 3 facts
    assert_eq!(facts.len(), 3);

    // Check resource identity
    let identity_fact = facts.iter().find(|f| f.predicate.as_str() == "resource");
    assert!(identity_fact.is_some());
}

#[test]
fn test_action_to_facts() {
    let action = Action::new("file:read").with_parameter("mode", Value::string("readonly"));

    let facts = CedarDatalogBridge::action_to_facts(&action);

    // Should have: 1 identity + 1 parameter = 2 facts
    assert_eq!(facts.len(), 2);

    // Check action identity
    let identity_fact = facts.iter().find(|f| f.predicate.as_str() == "action");
    assert!(identity_fact.is_some());
}

#[test]
fn test_request_to_facts() {
    let principal = Principal::user("alice");
    let action = Action::new("read");
    let resource = Resource::file("/tmp/data.txt");

    let request = Request::new(principal, action, resource);

    let facts = CedarDatalogBridge::request_to_facts(&request);

    // Should have principal, action, and resource facts
    assert!(!facts.is_empty());

    // Check for each fact type
    assert!(facts.iter().any(|f| f.predicate.as_str() == "principal"));
    assert!(facts.iter().any(|f| f.predicate.as_str() == "action"));
    assert!(facts.iter().any(|f| f.predicate.as_str() == "resource"));
}

#[test]
fn test_hierarchical_entities() {
    let parent = Entity::new("Group", "admins").with_attribute("level", Value::Integer(10));

    let principal = Principal::user("alice").entity.with_parent(parent);

    let principal = Principal { entity: principal };

    let facts = CedarDatalogBridge::principal_to_facts(&principal);

    // Should have principal facts + parent relationship + parent facts
    assert!(facts.len() > 1);

    // Check for parent relationship fact
    let parent_fact = facts
        .iter()
        .find(|f| f.predicate.as_str() == "principal_parent");
    assert!(parent_fact.is_some());

    // Check that parent facts were generated
    let parent_identity = facts
        .iter()
        .filter(|f| f.predicate.as_str() == "principal")
        .count();
    assert_eq!(parent_identity, 2); // alice + admins
}

#[test]
fn test_request_metadata_facts() {
    let principal = Principal::agent("agent-007");
    let action = Action::new("execute");
    let resource = Resource::api("/v1/endpoint");

    let request = Request::new(principal, action, resource);

    let metadata = CedarDatalogBridge::request_metadata_facts(&request);

    assert_eq!(metadata.len(), 3);
    assert!(metadata
        .iter()
        .any(|f| f.predicate.as_str() == "request_principal"));
    assert!(metadata
        .iter()
        .any(|f| f.predicate.as_str() == "request_action"));
    assert!(metadata
        .iter()
        .any(|f| f.predicate.as_str() == "request_resource"));
}

// ==================== BIDIRECTIONAL CONVERSION TESTS ====================

#[test]
fn test_roundtrip_principal() {
    // Create original principal with attributes
    let original = Principal::new("User", "alice")
        .entity
        .with_attribute("role", Value::string("admin"))
        .with_attribute("department", Value::string("engineering"));

    let principal = Principal { entity: original };

    // Convert to facts
    let facts = CedarDatalogBridge::principal_to_facts(&principal);

    // Convert back to principal (use actual ID, not entity_type::id format)
    let reconstructed = CedarDatalogBridge::facts_to_principal(&facts, &principal.entity.id)
        .expect("Failed to reconstruct principal");

    // Verify identity
    assert_eq!(reconstructed.entity.id, principal.entity.id);
    assert_eq!(
        reconstructed.entity.entity_type,
        principal.entity.entity_type
    );

    // Verify attributes
    assert_eq!(
        reconstructed.entity.attributes.get("role"),
        Some(&Value::string("admin"))
    );
    assert_eq!(
        reconstructed.entity.attributes.get("department"),
        Some(&Value::string("engineering"))
    );
}

#[test]
fn test_roundtrip_resource() {
    // Create original resource
    let original = Resource::new("File", "/tmp/secret.txt")
        .entity
        .with_attribute("owner", Value::string("alice"))
        .with_attribute("confidential", Value::Bool(true));

    let resource = Resource { entity: original };

    // Convert to facts
    let facts = CedarDatalogBridge::resource_to_facts(&resource);

    // Convert back (use actual ID)
    let reconstructed = CedarDatalogBridge::facts_to_resource(&facts, &resource.entity.id)
        .expect("Failed to reconstruct resource");

    // Verify
    assert_eq!(reconstructed.entity.id, resource.entity.id);
    assert_eq!(
        reconstructed.entity.attributes.get("owner"),
        Some(&Value::string("alice"))
    );
    assert_eq!(
        reconstructed.entity.attributes.get("confidential"),
        Some(&Value::Bool(true))
    );
}

#[test]
fn test_roundtrip_action() {
    // Create original action
    let original = Action::new("file:read")
        .with_parameter("mode", Value::string("readonly"))
        .with_parameter("level", Value::Integer(5));

    // Convert to facts
    let facts = CedarDatalogBridge::action_to_facts(&original);

    // Convert back
    let reconstructed = CedarDatalogBridge::facts_to_action(&facts, "file:read")
        .expect("Failed to reconstruct action");

    // Verify
    assert_eq!(reconstructed.name, original.name);
    assert_eq!(
        reconstructed.parameters.get("mode"),
        Some(&Value::string("readonly"))
    );
    assert_eq!(
        reconstructed.parameters.get("level"),
        Some(&Value::Integer(5))
    );
}

#[test]
fn test_roundtrip_request() {
    // Create original request
    let principal = Principal::user("alice")
        .entity
        .with_attribute("role", Value::string("developer"));
    let action = Action::new("read").with_parameter("urgent", Value::Bool(true));
    let resource = Resource::file("/data/config.json")
        .entity
        .with_attribute("classification", Value::string("public"));

    let original = Request::new(
        Principal { entity: principal },
        action,
        Resource { entity: resource },
    )
    .with_context("time", Value::string("2024-01-15"))
    .with_context("ip", Value::string("192.168.1.1"));

    // Convert to facts (both entity facts and metadata facts)
    let mut facts = CedarDatalogBridge::request_to_facts(&original);
    facts.extend(CedarDatalogBridge::request_metadata_facts(&original));

    // Convert back
    let reconstructed =
        CedarDatalogBridge::facts_to_request(&facts).expect("Failed to reconstruct request");

    // Verify principal
    assert_eq!(
        reconstructed.principal.entity.id,
        original.principal.entity.id
    );
    assert_eq!(
        reconstructed.principal.entity.attributes.get("role"),
        Some(&Value::string("developer"))
    );

    // Verify action
    assert_eq!(reconstructed.action.name, original.action.name);
    assert_eq!(
        reconstructed.action.parameters.get("urgent"),
        Some(&Value::Bool(true))
    );

    // Verify resource
    assert_eq!(
        reconstructed.resource.entity.id,
        original.resource.entity.id
    );

    // Verify context
    assert_eq!(
        reconstructed.context.get("time"),
        Some(&Value::string("2024-01-15"))
    );
}

#[test]
fn test_roundtrip_hierarchical_entity() {
    // Create entity with parent hierarchy
    let parent = Entity::new("Group", "admins")
        .with_attribute("level", Value::Integer(10))
        .with_attribute("department", Value::string("IT"));

    let principal = Principal::user("alice")
        .entity
        .with_attribute("role", Value::string("developer"))
        .with_parent(parent);

    let principal = Principal { entity: principal };

    // Convert to facts
    let facts = CedarDatalogBridge::principal_to_facts(&principal);

    // Convert back (use actual ID)
    let reconstructed = CedarDatalogBridge::facts_to_principal(&facts, &principal.entity.id)
        .expect("Failed to reconstruct principal with hierarchy");

    // Verify base entity
    assert_eq!(reconstructed.entity.id, principal.entity.id);
    assert_eq!(
        reconstructed.entity.attributes.get("role"),
        Some(&Value::string("developer"))
    );

    // Verify parent hierarchy
    assert_eq!(reconstructed.entity.parents.len(), 1);
    let parent = &reconstructed.entity.parents[0];
    // Check parent ID contains "admins" (actual ID format may vary)
    assert!(parent.id.as_str().contains("admins"));
    assert_eq!(parent.attributes.get("level"), Some(&Value::Integer(10)));
}

#[test]
fn test_extract_entities_from_facts() {
    // Create multiple principals
    let alice = Principal::user("alice")
        .entity
        .with_attribute("role", Value::string("admin"));
    let bob = Principal::user("bob")
        .entity
        .with_attribute("role", Value::string("user"));

    // Convert to facts
    let mut facts = CedarDatalogBridge::principal_to_facts(&Principal { entity: alice });
    facts.extend(CedarDatalogBridge::principal_to_facts(&Principal {
        entity: bob,
    }));

    // Extract all principals
    let entities = CedarDatalogBridge::extract_entities_from_facts(&facts, "principal");

    // Should extract both entities
    assert_eq!(entities.len(), 2);

    // Verify both entities are present (check just the ID part, not entity_type::id)
    let ids: Vec<_> = entities.iter().map(|e| e.id.as_str()).collect();
    // IDs should contain alice and bob (Principal::user creates these IDs)
    assert!(ids.iter().any(|id| id.contains("alice")));
    assert!(ids.iter().any(|id| id.contains("bob")));
}

#[test]
fn test_facts_to_entity_missing() {
    let facts = vec![Fact::new(
        "principal".to_string(),
        vec![Value::string("User::alice"), Value::string("User")],
    )];

    // Try to reconstruct non-existent entity
    let result = CedarDatalogBridge::facts_to_entity(&facts, "User::bob", "principal");

    // Should return None
    assert!(result.is_none());
}

#[test]
fn test_facts_to_request_missing_metadata() {
    // Create facts without metadata
    let principal = Principal::user("alice");
    let facts = CedarDatalogBridge::principal_to_facts(&principal);

    // Try to reconstruct request (should fail without metadata)
    let result = CedarDatalogBridge::facts_to_request(&facts);

    // Should return None because metadata facts are missing
    assert!(result.is_none());
}

