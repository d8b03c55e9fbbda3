use std::sync::Arc;

use wirecrab_spec::error::RefError;
use wirecrab_spec::location::DocLocation;
use wirecrab_spec::pointer::DocAddress;
use wirecrab_spec::resolver::{DocumentRef, RefResolver};
use wirecrab_spec::value::Value;

fn to_value(v: serde_json::Value) -> Value {
    match v {
        serde_json::Value::Null => Value::Null,
        serde_json::Value::Bool(b) => Value::Bool(b),
        serde_json::Value::Number(n) => Value::Number(n.to_string()),
        serde_json::Value::String(s) => Value::String(s),
        serde_json::Value::Array(items) => Value::Array(items.into_iter().map(to_value).collect()),
        serde_json::Value::Object(map) => {
            Value::Object(map.into_iter().map(|(k, v)| (k, to_value(v))).collect())
        }
    }
}

fn parse_yaml(text: &str) -> Value {
    to_value(serde_yaml::from_str(text).unwrap())
}

/// Loads `content` into `resolver` as the document `spec.yaml`.
fn create_test_yaml(resolver: &mut RefResolver, content: &str) -> DocLocation {
    let location = DocLocation::File("spec.yaml".to_string());
    resolver.add_document(location.clone(), parse_yaml(content));
    location
}

fn doc_ref(location: &DocLocation, pointer: &str) -> DocumentRef {
    DocumentRef {
        location: Arc::new(location.clone()),
        addr: Arc::new(DocAddress::try_from(pointer).unwrap()),
    }
}

fn text(s: &str) -> Value {
    Value::String(s.to_string())
}

#[test]
fn refresolver_load_simple_yaml() {
    let yaml = r#"
asyncapi: 3.0.0
info:
  title: Test API
  version: 1.0.0
"#;
    let mut resolver = RefResolver::default();
    let location = create_test_yaml(&mut resolver, yaml);

    let result = resolver.resolve(doc_ref(&location, "#/"));
    assert!(result.is_ok());

    let doc = result.unwrap();
    let doc_value = doc.as_ref();
    assert!(matches!(doc_value, Value::Object(_)));
}

#[test]
fn refresolver_traverse_nested_mapping() {
    let yaml = r#"
asyncapi: 3.0.0
info:
  title: Test API
  version: 1.0.0
components:
  schemas:
    User:
      type: object
      properties:
        name:
          type: string
"#;
    let mut resolver = RefResolver::default();
    let location = create_test_yaml(&mut resolver, yaml);

    let result = resolver.resolve(doc_ref(&location, "#/components/schemas/User/properties/name"));
    assert!(result.is_ok());

    let doc = result.unwrap();
    let doc_value = doc.as_ref();
    assert_eq!(doc_value.get("type"), Some(&text("string")));
}

#[test]
fn refresolver_traverse_sequence() {
    let yaml = r#"
servers:
  - url: amqp://localhost
    protocol: amqp
  - url: http://localhost:8080
    protocol: http
"#;
    let mut resolver = RefResolver::default();
    let location = create_test_yaml(&mut resolver, yaml);

    let result = resolver.resolve(doc_ref(&location, "#/servers/0"));
    assert!(result.is_ok());

    let doc = result.unwrap();
    let doc_value = doc.as_ref();
    assert_eq!(doc_value.get("protocol"), Some(&text("amqp")));
}

#[test]
fn refresolver_traverse_sequence_second_item() {
    let yaml = r#"
servers:
  - url: amqp://localhost
    protocol: amqp
  - url: http://localhost:8080
    protocol: http
"#;
    let mut resolver = RefResolver::default();
    let location = create_test_yaml(&mut resolver, yaml);

    let result = resolver.resolve(doc_ref(&location, "#/servers/1"));
    assert!(result.is_ok());

    let doc = result.unwrap();
    let doc_value = doc.as_ref();
    assert_eq!(doc_value.get("protocol"), Some(&text("http")));
}

#[test]
fn refresolver_error_missing_key() {
    let yaml = r#"
info:
  title: Test API
"#;
    let mut resolver = RefResolver::default();
    let location = create_test_yaml(&mut resolver, yaml);

    let result = resolver.resolve(doc_ref(&location, "#/missing/key"));
    assert!(result.is_err());
}

#[test]
fn refresolver_error_index_out_of_bounds() {
    let yaml = r#"
servers:
  - url: amqp://localhost
"#;
    let mut resolver = RefResolver::default();
    let location = create_test_yaml(&mut resolver, yaml);

    let result = resolver.resolve(doc_ref(&location, "#/servers/5"));
    assert!(result.is_err());
}

#[test]
fn refresolver_error_invalid_index() {
    let yaml = r#"
servers:
  - url: amqp://localhost
"#;
    let mut resolver = RefResolver::default();
    let location = create_test_yaml(&mut resolver, yaml);

    let result = resolver.resolve(doc_ref(&location, "#/servers/not_a_number"));
    assert!(result.is_err());
}

#[test]
fn refresolver_subtree_cache_hit() {
    let yaml = r#"
components:
  schemas:
    User:
      type: object
    Admin:
      type: object
"#;
    let mut resolver = RefResolver::default();
    let location = create_test_yaml(&mut resolver, yaml);

    let doc_ref = doc_ref(&location, "#/components/schemas/User");
    let result1 = resolver.resolve(doc_ref.clone());
    assert!(result1.is_ok());

    let result2 = resolver.resolve(doc_ref.clone());
    assert!(result2.is_ok());

    assert_eq!(result1.unwrap().as_ref(), result2.unwrap().as_ref());
}

#[test]
fn refresolver_doc_cache_reuse() {
    let yaml = r#"
components:
  schemas:
    User:
      type: object
    Admin:
      type: string
"#;
    let mut resolver = RefResolver::default();
    let location = create_test_yaml(&mut resolver, yaml);

    let result1 = resolver.resolve(doc_ref(&location, "#/components/schemas/User"));
    assert!(result1.is_ok());

    let result2 = resolver.resolve(doc_ref(&location, "#/components/schemas/Admin"));
    assert!(result2.is_ok());

    assert_ne!(result1.unwrap().as_ref(), result2.unwrap().as_ref());
}

#[test]
fn refresolver_caches_different_subtrees_separately() {
    let yaml = r#"
components:
  schemas:
    User:
      type: object
    Admin:
      type: object
"#;
    let mut resolver = RefResolver::default();
    let location = create_test_yaml(&mut resolver, yaml);

    let result1 = resolver.resolve(doc_ref(&location, "#/components/schemas/User"));
    assert!(result1.is_ok());

    let result2 = resolver.resolve(doc_ref(&location, "#/components/schemas/Admin"));
    assert!(result2.is_ok());

    assert_eq!(resolver.subtree_count(), 2);

    let keys: Vec<_> = (0..resolver.subtree_count()).map(|i| resolver.subtree_key(i)).collect();
    assert_ne!(keys[0], keys[1]);
}

#[test]
fn refresolver_with_slash_escaped_in_path() {
    let yaml = r#"
a/b:
  type: object
  properties:
    name:
      type: string
"#;
    let mut resolver = RefResolver::default();
    let location = create_test_yaml(&mut resolver, yaml);

    let result = resolver.resolve(doc_ref(&location, "#/a~1b/type"));
    assert!(result.is_ok());

    let doc = result.unwrap();
    let doc_value = doc.as_ref();
    assert_eq!(doc_value, &text("object"));
}

#[test]
fn refresolver_with_tilde_escaped_in_path() {
    let yaml = r#"
a~b:
  type: object
  properties:
    name:
      type: string
"#;
    let mut resolver = RefResolver::default();
    let location = create_test_yaml(&mut resolver, yaml);

    let result = resolver.resolve(doc_ref(&location, "#/a~0b/type"));
    assert!(result.is_ok());

    let doc = result.unwrap();
    let doc_value = doc.as_ref();
    assert_eq!(doc_value, &text("object"));
}

const SERVERS: &str = r#"{"servers": [{"protocol":"amqp"},{"protocol":"http"}]}"#;

#[test]
fn servers_by_index() {
    let mut resolver = RefResolver::new();
    let location = create_test_yaml(&mut resolver, SERVERS);
    let first = resolver.resolve(doc_ref(&location, "#/servers/0")).unwrap();
    assert_eq!(*first, parse_yaml(r#"{"protocol":"amqp"}"#));
    let second = resolver.resolve(doc_ref(&location, "#/servers/1")).unwrap();
    assert_eq!(*second, parse_yaml(r#"{"protocol":"http"}"#));
    assert_eq!(
        resolver.resolve(doc_ref(&location, "#/servers/5")),
        Err(RefError::IndexOutOfBounds("5".to_string()))
    );
    assert_eq!(
        resolver.resolve(doc_ref(&location, "#/servers/x")),
        Err(RefError::InvalidIndex("x".to_string()))
    );
}

#[test]
fn index_accepts_a_plus_sign_only_before_digits() {
    let mut resolver = RefResolver::new();
    let location = create_test_yaml(&mut resolver, SERVERS);
    let second = resolver.resolve(doc_ref(&location, "#/servers/+1")).unwrap();
    assert_eq!(*second, parse_yaml(r#"{"protocol":"http"}"#));
    for seg in ["+", "-1", "1.0", " 1", "99999999999999999999999"] {
        let addr = format!("#/servers/{seg}");
        assert_eq!(
            resolver.resolve(doc_ref(&location, &addr)),
            Err(RefError::InvalidIndex(seg.to_string()))
        );
    }
}

#[test]
fn missing_key_and_scalar_errors_name_the_segment() {
    let mut resolver = RefResolver::new();
    let location = create_test_yaml(&mut resolver, "info:\n  title: Test API\n");
    assert_eq!(
        resolver.resolve(doc_ref(&location, "#/missing/key")),
        Err(RefError::KeyNotFound("missing".to_string()))
    );
    assert_eq!(
        resolver.resolve(doc_ref(&location, "#/info/title/deeper")),
        Err(RefError::NotTraversable("deeper".to_string()))
    );
}

#[test]
fn unloaded_document_is_asked_for_once() {
    let mut resolver = RefResolver::new();
    let location = DocLocation::File("spec.yaml".to_string());
    assert_eq!(
        resolver.resolve(doc_ref(&location, "#/servers/0")),
        Err(RefError::DocumentNotLoaded(location.clone()))
    );
    assert!(!resolver.is_loaded(&location));
    resolver.add_document(location.clone(), parse_yaml(SERVERS));
    assert!(resolver.resolve(doc_ref(&location, "#/servers/0")).is_ok());
    assert!(resolver.resolve(doc_ref(&location, "#/servers/1")).is_ok());
    assert_eq!(resolver.document_count(), 1);
    assert_eq!(resolver.subtree_count(), 2);
    assert_ne!(resolver.subtree_key(0), resolver.subtree_key(1));
}

#[test]
fn second_resolution_is_a_cache_hit() {
    let mut resolver = RefResolver::new();
    let location = create_test_yaml(&mut resolver, SERVERS);
    let first = resolver.resolve(doc_ref(&location, "#/servers/1")).unwrap();
    assert_eq!(resolver.subtree_count(), 1);
    let second = resolver.resolve(doc_ref(&location, "#/servers/1")).unwrap();
    assert_eq!(first, second);
    assert_eq!(resolver.subtree_count(), 1);
    assert_eq!(resolver.document_count(), 1);
}

#[test]
fn a_loaded_location_keeps_its_document() {
    let mut resolver = RefResolver::new();
    let location = create_test_yaml(&mut resolver, SERVERS);
    resolver.add_document(location.clone(), Value::Null);
    assert_eq!(resolver.document_count(), 1);
    assert_eq!(*resolver.resolve_doc(&location).unwrap(), parse_yaml(SERVERS));
}

#[test]
fn resolve_ref_splits_location_and_pointer() {
    assert_eq!(RefResolver::parse_ref("#/a/b", "root.yaml"), Some(("root.yaml", "/a/b")));
    assert_eq!(RefResolver::parse_ref("other.yaml#/a", "root.yaml"), Some(("other.yaml", "/a")));
    assert_eq!(RefResolver::parse_ref("other.yaml#", "root.yaml"), Some(("other.yaml", "")));
    assert_eq!(RefResolver::parse_ref("x#y#z", "root.yaml"), Some(("x", "y#z")));
    assert_eq!(RefResolver::parse_ref("other.yaml", "root.yaml"), None);
    assert_eq!(RefResolver::parse_ref("", "root.yaml"), None);
}

#[test]
fn resolve_ref_reads_the_pointer_part() {
    let mut resolver = RefResolver::new();
    let location = create_test_yaml(&mut resolver, SERVERS);
    let whole = resolver.resolve_ref("spec.yaml", "#").unwrap();
    assert_eq!(*whole, parse_yaml(SERVERS));
    let item = resolver.resolve_ref("spec.yaml", "#/servers/1").unwrap();
    assert_eq!(*item, parse_yaml(r#"{"protocol":"http"}"#));
    let same = resolver.resolve_ref("elsewhere.yaml", "spec.yaml#/servers/1").unwrap();
    assert_eq!(same, item);
    assert_eq!(
        resolver.resolve_ref("spec.yaml", "#/servers//1"),
        Err(RefError::InvalidPointer("#/servers//1".to_string()))
    );
    assert_eq!(
        resolver.resolve_ref("spec.yaml", "other.yaml#/a"),
        Err(RefError::DocumentNotLoaded(DocLocation::File("other.yaml".to_string())))
    );
    assert_eq!(location, DocLocation::File("spec.yaml".to_string()));
}

#[test]
fn reference_without_hash_is_rejected() {
    let mut resolver = RefResolver::new();
    create_test_yaml(&mut resolver, SERVERS);
    assert_eq!(
        resolver.resolve_ref("root.yaml", "spec.yaml"),
        Err(RefError::InvalidPointer("spec.yaml".to_string()))
    );
    assert_eq!(resolver.subtree_count(), 0);
}

#[test]
fn pointer_part_starting_with_hash_is_read_as_it_stands() {
    let mut resolver = RefResolver::new();
    create_test_yaml(&mut resolver, SERVERS);
    let item = resolver.resolve_ref("root.yaml", "spec.yaml##/servers/1").unwrap();
    assert_eq!(*item, parse_yaml(r#"{"protocol":"http"}"#));
    assert_eq!(
        resolver.resolve_ref("root.yaml", "spec.yaml##servers"),
        Err(RefError::InvalidPointer("spec.yaml##servers".to_string()))
    );
}

#[test]
fn locations_are_classified_without_io() {
    assert_eq!(
        RefResolver::resolve_location("https://Example.com/specs/a.yaml"),
        DocLocation::Url("https://example.com/specs/a.yaml".to_string())
    );
    assert_eq!(
        RefResolver::resolve_location("http://example.com"),
        DocLocation::Url("http://example.com/".to_string())
    );
    assert_eq!(
        RefResolver::resolve_location("specs/a.yaml"),
        DocLocation::File("specs/a.yaml".to_string())
    );
    let url = RefResolver::resolve_location("http://example.com");
    assert!(url.same_as(&url.duplicate()));
    assert!(!url.same_as(&DocLocation::File("http://example.com/".to_string())));
}
