use wirecrab_spec::error::RefError;
use wirecrab_spec::location::DocLocation;
use wirecrab_spec::resolver::RefResolver;
use wirecrab_spec::value::Value;

fn to_value(v: serde_json::Value) -> Value {
    match v {
        serde_json::Value::Null => Value::Null,
        serde_json::Value::Bool(b) => Value::Bool(b),
        serde_json::Value::Number(n) => Value::Number(n.to_string()),
        serde_json::Value::String(s) => Value::String(s),
        serde_json::Value::Array(items) => Value::Array(items.into_iter().map(to_value).collect()),
        serde_json::Value::Object(map) => {
            Value::Object(map.into_iter().map(|(k, v)| (k, to_value(v))).collect())
        }
    }
}

fn json(text: &str) -> Value {
    to_value(serde_yaml::from_str(text).unwrap())
}

fn with_document(path: &str, text: &str) -> RefResolver {
    let mut resolver = RefResolver::new();
    resolver.add_document(DocLocation::File(path.to_string()), json(text));
    resolver
}

#[test]
fn internal_reference_is_expanded() {
    let mut resolver = with_document("doc.yaml", r##"{"a": {"$ref": "#/b"}, "b": {"value": 1}}"##);
    let out = resolver.expand_path("doc.yaml").unwrap();
    assert_eq!(out, json(r##"{"a": {"value": 1}, "b": {"value": 1}}"##));
}

#[test]
fn mutual_references_are_circular() {
    let mut resolver =
        with_document("doc.yaml", r##"{"a": {"$ref": "#/b"}, "b": {"$ref": "#/a"}}"##);
    let out = resolver.expand_path("doc.yaml");
    assert!(matches!(out, Err(RefError::CircularReference(_))));
    assert_eq!(out, Err(RefError::CircularReference("#/b".to_string())));
}

#[test]
fn self_reference_is_circular() {
    let mut resolver = with_document("doc.yaml", r##"{"a": {"$ref": "#/a"}}"##);
    assert_eq!(
        resolver.expand_path("doc.yaml"),
        Err(RefError::CircularReference("#/a".to_string()))
    );
}

#[test]
fn siblings_may_share_a_target() {
    let text = r##"{
        "left": {"x": {"$ref": "#/shared"}},
        "right": [{"$ref": "#/shared"}],
        "shared": {"kind": "common"}
    }"##;
    let mut resolver = with_document("doc.yaml", text);
    let out = resolver.expand_path("doc.yaml").unwrap();
    assert_eq!(
        out,
        json(
            r##"{
        "left": {"x": {"kind": "common"}},
        "right": [{"kind": "common"}],
        "shared": {"kind": "common"}
    }"##
        )
    );
}

#[test]
fn diamond_of_references_succeeds() {
    let text = r##"{
        "top": {"l": {"$ref": "#/left"}, "r": {"$ref": "#/right"}},
        "left": {"$ref": "#/bottom"},
        "right": {"$ref": "#/bottom"},
        "bottom": 7
    }"##;
    let mut resolver = with_document("doc.yaml", text);
    let out = resolver.expand_path("doc.yaml").unwrap();
    assert_eq!(out.get("top"), Some(&json(r##"{"l": 7, "r": 7}"##)));
}

#[test]
fn reference_node_is_replaced_whole() {
    let mut resolver = with_document(
        "doc.yaml",
        r##"{"a": {"$ref": "#/b", "note": "dropped"}, "b": [1, true, null, "s"]}"##,
    );
    let out = resolver.expand_path("doc.yaml").unwrap();
    assert_eq!(out.get("a"), Some(&json(r##"[1, true, null, "s"]"##)));
}

#[test]
fn non_string_ref_key_is_dropped() {
    let mut resolver = with_document("doc.yaml", r##"{"a": {"$ref": 5, "keep": {"x": 1}}}"##);
    let out = resolver.expand_path("doc.yaml").unwrap();
    assert_eq!(out, json(r##"{"a": {"keep": {"x": 1}}}"##));
}

#[test]
fn expansion_of_a_given_value() {
    let mut resolver = with_document("doc.yaml", r##"{"defs": {"n": 3}}"##);
    let value = json(r##"[{"$ref": "#/defs/n"}, "plain"]"##);
    let out = resolver.resolve_recursive(&value, "doc.yaml").unwrap();
    assert_eq!(out, json(r##"[3, "plain"]"##));
}

#[test]
fn external_document_is_asked_for_then_used() {
    let mut resolver = with_document("root.yaml", r##"{"a": {"$ref": "common.yaml#/defs/x"}}"##);
    let common = DocLocation::File("common.yaml".to_string());
    assert_eq!(
        resolver.expand_path("root.yaml"),
        Err(RefError::DocumentNotLoaded(common.clone()))
    );
    resolver.add_document(common, json(r##"{"defs": {"x": {"$ref": "#/y"}}, "y": 1}"##));
    // The nested reference is read relative to the originating file.
    assert_eq!(
        resolver.expand_path("root.yaml"),
        Err(RefError::KeyNotFound("y".to_string()))
    );
    resolver = with_document("root.yaml", r##"{"a": {"$ref": "common.yaml#/defs/x"}, "y": 2}"##);
    resolver.add_document(
        DocLocation::File("common.yaml".to_string()),
        json(r##"{"defs": {"x": {"$ref": "#/y"}}, "y": 1}"##),
    );
    let out = resolver.expand_path("root.yaml").unwrap();
    assert_eq!(out, json(r##"{"a": 2, "y": 2}"##));
}

#[test]
fn errors_inside_references_abort() {
    let mut resolver = with_document("doc.yaml", r##"{"a": {"$ref": "#/nope"}, "b": {"$ref": "#/~"}}"##);
    assert_eq!(resolver.expand_path("doc.yaml"), Err(RefError::KeyNotFound("nope".to_string())));
    let mut resolver = with_document("doc.yaml", r##"{"b": {"$ref": "#/~"}}"##);
    assert_eq!(
        resolver.expand_path("doc.yaml"),
        Err(RefError::InvalidPointer("#/~".to_string()))
    );
}

#[test]
fn unloaded_root_is_asked_for() {
    let mut resolver = RefResolver::new();
    assert_eq!(
        resolver.expand_path("spec.yaml"),
        Err(RefError::DocumentNotLoaded(DocLocation::File("spec.yaml".to_string())))
    );
}

#[test]
fn value_without_references_leaves_the_cache_alone() {
    let mut resolver = with_document("doc.yaml", r##"{"defs": {"n": 3}}"##);
    resolver.resolve_ref("doc.yaml", "#/defs").unwrap();
    let value = json(r##"{"a": [1, {"b": "c"}], "$ref": 4}"##);
    let out = resolver.resolve_recursive(&value, "doc.yaml").unwrap();
    assert_eq!(out, json(r##"{"a": [1, {"b": "c"}]}"##));
    assert_eq!(resolver.subtree_count(), 1);
    assert_eq!(resolver.document_count(), 1);
}

#[test]
fn circular_hit_adds_nothing_new_to_the_cache() {
    let mut resolver = with_document("doc.yaml", r##"{"a": {"$ref": "#/a"}}"##);
    assert!(resolver.expand_path("doc.yaml").is_err());
    // The root and `#/a` were resolved on the way to the cycle, nothing more.
    assert_eq!(resolver.subtree_count(), 2);
    assert!(resolver.expand_path("doc.yaml").is_err());
    assert_eq!(resolver.subtree_count(), 2);
}

#[test]
fn deep_copy_is_equal() {
    let v = json(r##"{"a": [1, {"b": "c"}], "d": null}"##);
    assert_eq!(v.deep_copy(), v);
}
