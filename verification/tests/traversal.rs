use taplo_schema::json::{JsonNumber, JsonValue};
use taplo_schema::schema::KeyOrIndex;
use taplo_schema::traversal::{
    possible_schemas_from, schemas_at_path, Halt, Knowledge, Need, TraversalError,
};
use taplo_schema::validation::{validate, SchemaViolation};

const TEST_SCHEMA_URL: &str = "file:///taplo-test/schema.json";

fn j(text: &str) -> JsonValue {
    from_serde(&serde_json::from_str(text).unwrap())
}

fn from_serde(v: &serde_json::Value) -> JsonValue {
    match v {
        serde_json::Value::Null => JsonValue::Null,
        serde_json::Value::Bool(b) => JsonValue::Bool(*b),
        serde_json::Value::Number(n) => JsonValue::Number(if let Some(u) = n.as_u64() {
            JsonNumber::PosInt(u)
        } else if let Some(i) = n.as_i64() {
            JsonNumber::NegInt(i)
        } else {
            JsonNumber::Float { text: n.to_string(), zero: n.as_f64() == Some(0.0) }
        }),
        serde_json::Value::String(s) => JsonValue::String(s.clone()),
        serde_json::Value::Array(items) => JsonValue::Array(items.iter().map(from_serde).collect()),
        serde_json::Value::Object(map) => JsonValue::Object(
            map.iter().map(|(k, v)| (k.clone(), from_serde(v))).collect(),
        ),
    }
}

fn to_serde(v: &JsonValue) -> serde_json::Value {
    match v {
        JsonValue::Null => serde_json::Value::Null,
        JsonValue::Bool(b) => serde_json::Value::Bool(*b),
        JsonValue::Number(n) => serde_json::from_str(&n.to_text()).unwrap(),
        JsonValue::String(s) => serde_json::Value::String(s.clone()),
        JsonValue::Array(items) => serde_json::Value::Array(items.iter().map(to_serde).collect()),
        JsonValue::Object(entries) => serde_json::Value::Object(
            entries.iter().map(|(k, v)| (k.clone(), to_serde(v))).collect(),
        ),
    }
}

/// Runs the traversal to its end, answering what it needs: documents from
/// `documents` (the first is the root).
fn found_at(documents: &[(&str, &str)], value: &str, path: Vec<KeyOrIndex>) -> Vec<(Vec<KeyOrIndex>, serde_json::Value)> {
    let mut k = Knowledge { documents: Vec::new() };
    for (url, text) in documents {
        k.documents.push((url.to_string(), Some((url.to_string(), j(text)))));
    }
    let value = j(value);
    for _ in 0..100 {
        match schemas_at_path(&k, documents[0].0, &value, &path) {
            Ok(found) => return found.iter().map(|(p, s)| (copy_path(p), to_serde(s))).collect(),
            Err(Halt::Needs(Need::Document(url))) => k.documents.push((url, None)),
            Err(Halt::Failed(e)) => panic!("traversal failed: {e:?}"),
        }
    }
    panic!("the traversal kept asking")
}

fn copy_path(p: &[KeyOrIndex]) -> Vec<KeyOrIndex> {
    p.iter()
        .map(|s| match s {
            KeyOrIndex::Key(k) => KeyOrIndex::Key(k.clone()),
            KeyOrIndex::Index(i) => KeyOrIndex::Index(*i),
        })
        .collect()
}

fn descriptions(found: &[(Vec<KeyOrIndex>, serde_json::Value)]) -> Vec<String> {
    found.iter().filter_map(|(_, s)| s["description"].as_str().map(str::to_owned)).collect()
}

fn key(k: &str) -> KeyOrIndex {
    KeyOrIndex::Key(k.to_owned())
}

fn seeded(schema: &str) -> Vec<(&'static str, String)> {
    vec![(TEST_SCHEMA_URL, schema.to_owned())]
}

fn at(docs: &[(&str, String)], value: &str, path: Vec<KeyOrIndex>) -> Vec<String> {
    let borrowed: Vec<(&str, &str)> = docs.iter().map(|(u, d)| (*u, d.as_str())).collect();
    descriptions(&found_at(&borrowed, value, path))
}

/// Validates `value` against the first of `docs` to the end, marking the
/// documents it asks for as unloadable.
fn violations(docs: &[(&str, String)], value: &str) -> Vec<SchemaViolation> {
    let mut k = Knowledge { documents: Vec::new() };
    for (url, text) in docs {
        k.documents.push((url.to_string(), Some((url.to_string(), j(text)))));
    }
    let value = j(value);
    for _ in 0..20 {
        match validate(&k, docs[0].0, &value) {
            Ok(v) => return v,
            Err(Halt::Needs(Need::Document(u))) => k.documents.push((u, None)),
            Err(h) => panic!("validation stopped: {h:?}"),
        }
    }
    panic!("validation kept asking")
}

const PAIR: &str = r#"{
    "type": "object",
    "properties": {
        "pair": {
            "type": "array",
            "prefixItems": [{ "type": "string", "description": "head" }],
            "items": { "type": "integer", "description": "tail" }
        }
    }
}"#;

#[test]
fn prefix_items_resolves_at_covered_index() {
    assert_eq!(at(&seeded(PAIR), "null", vec![key("pair"), KeyOrIndex::Index(0)]), ["head"]);
}

#[test]
fn prefix_items_falls_through_to_items_past_the_end() {
    assert_eq!(at(&seeded(PAIR), "null", vec![key("pair"), KeyOrIndex::Index(1)]), ["tail"]);
}

#[test]
fn draft_7_tuple_items_still_resolve_by_position() {
    let docs = seeded(r#"{ "properties": { "pair": { "type": "array", "items": [
        { "type": "string", "description": "head" },
        { "type": "integer", "description": "second" }
    ] } } }"#);
    assert_eq!(at(&docs, "null", vec![key("pair"), KeyOrIndex::Index(1)]), ["second"]);
}

#[test]
fn single_schema_items_still_resolve_at_every_index() {
    let docs = seeded(r#"{ "properties": { "list": { "type": "array", "items": { "description": "every element" } } } }"#);
    assert_eq!(at(&docs, "null", vec![key("list"), KeyOrIndex::Index(3)]), ["every element"]);
}

#[test]
fn all_of_required_keys_are_a_union() {
    let docs = seeded(r#"{ "properties": { "config": {
        "required": ["a"],
        "allOf": [{ "required": ["a", "b"] }, { "required": ["c"] }]
    } } }"#);
    let borrowed: Vec<(&str, &str)> = docs.iter().map(|(u, d)| (*u, d.as_str())).collect();
    let found = found_at(&borrowed, "null", vec![key("config")]);
    assert_eq!(found[0].1["required"], serde_json::from_str::<serde_json::Value>(r#"["a", "b", "c"]"#).unwrap());
}

#[test]
fn remaining_all_of_preserves_annotations_and_intersects_enums() {
    let docs = seeded(r#"{ "properties": { "mode": {
        "description": "Choose a mode",
        "enum": ["fast", "safe"],
        "allOf": [{ "type": "string", "enum": ["safe", "other"] }]
    } } }"#);
    let borrowed: Vec<(&str, &str)> = docs.iter().map(|(u, d)| (*u, d.as_str())).collect();
    let found = found_at(&borrowed, r#"{ "mode": "safe" }"#, vec![key("mode")]);
    assert_eq!(found.len(), 1);
    assert_eq!(found[0].1["description"], "Choose a mode");
    assert_eq!(found[0].1["enum"], serde_json::from_str::<serde_json::Value>(r#"["safe"]"#).unwrap());
    let k = Knowledge { documents: vec![(TEST_SCHEMA_URL.to_owned(), Some((TEST_SCHEMA_URL.to_owned(), j(&docs[0].1))))] };
    let children = possible_schemas_from(&k, TEST_SCHEMA_URL, &JsonValue::Null, &Vec::new(), 5).unwrap();
    let mode = children
        .iter()
        .find(|(_, relative, _)| matches!(relative.as_slice(), [KeyOrIndex::Key(m)] if m == "mode"))
        .map(|(_, _, s)| to_serde(s))
        .unwrap();
    assert_eq!(mode["enum"], serde_json::from_str::<serde_json::Value>(r#"["safe"]"#).unwrap());
}

#[test]
fn a_self_referential_all_of_is_composed_once() {
    let docs = seeded(r##"{ "properties": { "node": { "$ref": "#/definitions/node" } },
        "definitions": { "node": { "description": "Points back at itself.", "allOf": [{ "$ref": "#/definitions/node" }] } } }"##);
    assert_eq!(at(&docs, "null", vec![key("node")]), ["Points back at itself."]);
}

const CONDITIONAL: &str = r#"{
    "type": "object",
    "if": { "properties": { "kind": { "const": "docker" } }, "required": ["kind"] },
    "then": { "properties": { "image": { "type": "string", "description": "then" } } },
    "else": { "properties": { "image": { "type": "string", "description": "else" } } }
}"#;

#[test]
fn a_met_condition_selects_the_then_branch() {
    assert_eq!(at(&seeded(CONDITIONAL), r#"{ "kind": "docker" }"#, vec![key("image")]), ["then"]);
}

#[test]
fn an_unmet_condition_selects_the_else_branch() {
    assert_eq!(at(&seeded(CONDITIONAL), r#"{ "kind": "podman" }"#, vec![key("image")]), ["else"]);
}

#[test]
fn an_absent_instance_takes_both_branches() {
    assert_eq!(at(&seeded(CONDITIONAL), "null", vec![key("image")]), ["then", "else"]);
}

#[test]
fn an_empty_instance_decides_the_condition() {
    assert_eq!(at(&seeded(CONDITIONAL), "{}", vec![key("image")]), ["else"]);
}

#[test]
fn a_condition_that_is_a_reference_is_resolved() {
    let docs = seeded(r##"{
        "type": "object",
        "if": { "$ref": "#/definitions/docker" },
        "then": { "properties": { "image": { "description": "then" } } },
        "else": { "properties": { "image": { "description": "else" } } },
        "definitions": { "docker": { "properties": { "kind": { "const": "docker" } }, "required": ["kind"] } }
    }"##);
    assert_eq!(at(&docs, r#"{ "kind": "docker" }"#, vec![key("image")]), ["then"]);
}

#[test]
fn unevaluated_items_skips_positions_covered_by_contains() {
    let docs = seeded(r#"{
        "$schema": "https://json-schema.org/draft/2020-12/schema",
        "properties": { "values": {
            "contains": { "type": "integer" },
            "unevaluatedItems": { "type": "string", "description": "Tail" }
        } }
    }"#);
    let value = r#"{ "values": [1, "ok"] }"#;
    assert!(at(&docs, value, vec![key("values"), KeyOrIndex::Index(0)]).is_empty());
    assert_eq!(at(&docs, value, vec![key("values"), KeyOrIndex::Index(1)]), ["Tail"]);
    assert!(violations(&docs, value).is_empty());
}

/// Embedded resources are known by their `$id`, with the base around them:
/// the walk into one re-bases by that `$id` on entry.
#[test]
fn embedded_resource_pointer_keeps_relative_refs_scoped() {
    let docs = seeded(r#"{
        "$id": "https://example.com/root.json",
        "$schema": "https://json-schema.org/draft/2020-12/schema",
        "properties": { "port": { "$ref": "defs/network.json#/$defs/port" } },
        "$defs": {
            "network": { "$id": "defs/network.json", "$defs": { "port": { "$ref": "port.json" } } },
            "port": { "$id": "defs/port.json", "type": "integer", "description": "Port" }
        }
    }"#);
    assert_eq!(at(&docs, "null", vec![key("port")]), ["Port"]);
    assert!(!violations(&docs, r#"{ "port": "bad" }"#).is_empty());
}

#[test]
fn a_reference_to_a_missing_document_fails() {
    let docs = seeded(r#"{ "properties": { "a": { "$ref": "missing.json" } } }"#);
    let mut k = Knowledge { documents: Vec::new() };
    k.documents.push((TEST_SCHEMA_URL.to_owned(), Some((TEST_SCHEMA_URL.to_owned(), j(&docs[0].1)))));
    match schemas_at_path(&k, TEST_SCHEMA_URL, &JsonValue::Null, &vec![key("a")]) {
        Err(Halt::Needs(Need::Document(url))) => assert_eq!(url, "file:///taplo-test/missing.json"),
        other => panic!("expected a request for the document, got {other:?}"),
    }
    k.documents.push(("file:///taplo-test/missing.json".to_owned(), None));
    match schemas_at_path(&k, TEST_SCHEMA_URL, &JsonValue::Null, &vec![key("a")]) {
        Err(Halt::Failed(TraversalError::Unloadable(url))) => assert_eq!(url, "file:///taplo-test/missing.json"),
        other => panic!("expected a failure, got {other:?}"),
    }
}

#[test]
fn found_paths_are_full_paths() {
    let docs = seeded(r#"{ "properties": { "a": { "properties": { "b": { "description": "deep" } } } } }"#);
    let borrowed: Vec<(&str, &str)> = docs.iter().map(|(u, d)| (*u, d.as_str())).collect();
    let found = found_at(&borrowed, "null", vec![key("a"), key("b")]);
    assert_eq!(found.len(), 1);
    match (&found[0].0[0], &found[0].0[1]) {
        (KeyOrIndex::Key(a), KeyOrIndex::Key(b)) => assert_eq!((a.as_str(), b.as_str()), ("a", "b")),
        _ => panic!("unexpected path"),
    }
}

/// Runs a traversal to its end, marking unknown documents as missing.
fn drive<T>(k: &mut Knowledge, run: impl Fn(&Knowledge) -> Result<T, Halt>) -> T {
    for _ in 0..100 {
        match run(k) {
            Ok(found) => return found,
            Err(Halt::Needs(Need::Document(url))) => k.documents.push((url, None)),
            Err(Halt::Failed(e)) => panic!("traversal failed: {e:?}"),
        }
    }
    panic!("the traversal kept asking")
}

fn knowing(schema: &str) -> Knowledge {
    Knowledge {
        documents: vec![(TEST_SCHEMA_URL.to_owned(), Some((TEST_SCHEMA_URL.to_owned(), j(schema))))],
    }
}

fn path_text(p: &[KeyOrIndex]) -> String {
    p.iter()
        .map(|s| match s {
            KeyOrIndex::Key(k) => k.clone(),
            KeyOrIndex::Index(i) => i.to_string(),
        })
        .collect::<Vec<_>>()
        .join(".")
}

fn children(schema: &str, value: &str, max_depth: usize) -> Vec<(String, serde_json::Value)> {
    let mut k = knowing(schema);
    let value = j(value);
    let found = drive(&mut k, |k| possible_schemas_from(k, TEST_SCHEMA_URL, &value, &vec![], max_depth));
    found.iter().map(|(_, relative, s)| (path_text(relative), to_serde(s))).collect()
}

#[test]
fn composed_all_of_ref_resolves_to_child_schema() {
    let found = children(
        r##"{
            "type": "object",
            "properties": { "value": { "description": "Executable names checked on PATH.", "allOf": [{ "$ref": "#/definitions/value" }] } },
            "definitions": { "value": { "type": "string" } }
        }"##,
        "null",
        5,
    );
    let value = &found.iter().find(|(p, _)| p == "value").expect("no schema collected for `value`").1;
    assert_eq!(value["type"], "string");
    assert_eq!(value["description"], "Executable names checked on PATH.");
}

#[test]
fn completion_follows_the_branch_the_document_selects() {
    let found = children(
        r#"{
            "type": "object",
            "if": { "properties": { "kind": { "const": "docker" } }, "required": ["kind"] },
            "then": { "properties": { "image": { "type": "string" } } },
            "else": { "properties": { "binary": { "type": "string" } } }
        }"#,
        r#"{ "kind": "docker" }"#,
        5,
    );
    let mut offered: Vec<String> = found.into_iter().map(|(p, _)| p).filter(|p| !p.is_empty()).collect();
    offered.sort();
    assert_eq!(offered, ["image"]);
}

#[test]
fn a_cycle_through_composed_all_of_members_terminates() {
    children(
        r##"{
            "type": "object",
            "properties": { "a": { "$ref": "#/definitions/a" } },
            "definitions": {
                "a": { "allOf": [{ "$ref": "#/definitions/b" }] },
                "b": { "allOf": [{ "$ref": "#/definitions/c" }, { "$ref": "#/definitions/d" }, { "$ref": "#/definitions/e" }] },
                "c": { "allOf": [{ "$ref": "#/definitions/b" }] },
                "d": { "allOf": [{ "$ref": "#/definitions/b" }] },
                "e": { "allOf": [{ "$ref": "#/definitions/b" }] }
            }
        }"##,
        "null",
        5,
    );
}

#[test]
fn a_composed_all_of_cycle_terminates() {
    children(
        r##"{
            "type": "object",
            "properties": { "node": { "$ref": "#/definitions/node" } },
            "definitions": { "node": { "allOf": [
                { "$ref": "#/definitions/node" }, { "$ref": "#/definitions/node" }, { "$ref": "#/definitions/node" }
            ] } }
        }"##,
        "null",
        5,
    );
}

#[test]
fn a_three_way_any_of_cycle_terminates() {
    let schema = r##"{
        "type": "object",
        "properties": { "node": { "$ref": "#/definitions/node" } },
        "definitions": { "node": { "anyOf": [
            { "$ref": "#/definitions/node" }, { "$ref": "#/definitions/node" }, { "$ref": "#/definitions/node" }
        ] } }
    }"##;
    let mut k = knowing(schema);
    drive(&mut k, |k| schemas_at_path(k, TEST_SCHEMA_URL, &JsonValue::Null, &vec![key("node")]));
}

#[test]
fn a_self_referential_document_terminates_at_depth() {
    let schema = r##"{ "anyOf": [{ "$ref": "#" }, { "$ref": "#" }], "properties": { "a": { "$ref": "#" } } }"##;
    let mut k = knowing(schema);
    let path: Vec<KeyOrIndex> = (0..8).map(|_| key("a")).collect();
    drive(&mut k, |k| schemas_at_path(k, TEST_SCHEMA_URL, &JsonValue::Null, &path));
}

#[test]
fn children_stop_at_the_requested_depth() {
    let schema = r#"{ "properties": { "a": { "properties": { "b": { "properties": { "c": {} } } } } } }"#;
    let depths: Vec<String> = children(schema, "null", 2).into_iter().map(|(p, _)| p).collect();
    assert_eq!(depths, ["", "a"]);
}

#[test]
fn equal_branches_are_listed_once() {
    let docs = seeded(r#"{ "properties": { "a": { "anyOf": [{ "description": "same" }, { "description": "same" }] } } }"#);
    let borrowed: Vec<(&str, &str)> = docs.iter().map(|(u, d)| (*u, d.as_str())).collect();
    let found = found_at(&borrowed, "null", vec![key("a")]);
    assert_eq!(descriptions(&found), ["same"]);
    for (i, x) in found.iter().enumerate() {
        for y in &found[i + 1..] {
            assert!(!(path_text(&x.0) == path_text(&y.0) && x.1 == y.1));
        }
    }
}

#[test]
fn equal_children_are_listed_once() {
    let found = children(
        r#"{
            "type": "object",
            "anyOf": [
                { "properties": { "k": { "type": "string" } } },
                { "properties": { "k": { "type": "string" } } }
            ]
        }"#,
        "null",
        5,
    );
    let at_k: Vec<_> = found.iter().filter(|(p, _)| p == "k").collect();
    assert_eq!(at_k.len(), 1);
    assert_eq!(at_k[0].1["type"], "string");
}

#[test]
fn items_does_not_apply_at_an_index_prefix_items_covers() {
    let docs = seeded(r#"{ "type": "object", "properties": { "pair": {
        "type": "array",
        "prefixItems": [{ "type": "string", "description": "head" }],
        "items": { "type": "integer", "description": "tail" }
    } } }"#);
    assert_eq!(at(&docs, "null", vec![key("pair"), KeyOrIndex::Index(0)]), ["head"]);
}

const SELF_REFERENTIAL: &str = r##"{
    "type": "object",
    "properties": { "node": { "$ref": "#/definitions/node" } },
    "definitions": { "node": { "description": "Points back at itself.", "allOf": [{ "$ref": "#/definitions/node" }] } }
}"##;

#[test]
fn self_referential_all_of_terminates() {
    children(SELF_REFERENTIAL, "null", 5);
}

#[test]
fn mutually_referential_all_of_terminates() {
    children(
        r##"{
            "type": "object",
            "properties": { "a": { "$ref": "#/definitions/a" } },
            "definitions": {
                "a": { "allOf": [{ "$ref": "#/definitions/b" }] },
                "b": { "allOf": [{ "$ref": "#/definitions/a" }] }
            }
        }"##,
        "null",
        5,
    );
}

#[test]
fn self_referential_all_of_terminates_at_a_non_empty_path() {
    assert_eq!(at(&seeded(SELF_REFERENTIAL), "null", vec![key("node")]), ["Points back at itself."]);
}

#[test]
fn embedded_resource_children_keep_the_resource_scope() {
    let root = r#"{
        "properties": { "server": { "$ref": "defs/network.json#/$defs/server" } },
        "$defs": {
            "network": { "$id": "defs/network.json", "$defs": {
                "server": { "properties": { "port": { "$ref": "port.json" } } }
            } },
            "port": { "$id": "defs/port.json", "type": "integer", "description": "Port" }
        }
    }"#;
    let network = r#"{ "$id": "defs/network.json", "$defs": { "server": { "properties": { "port": { "$ref": "port.json" } } } } }"#;
    let port = r#"{ "$id": "defs/port.json", "type": "integer", "description": "Port" }"#;
    let mut k = Knowledge {
        documents: vec![
            (TEST_SCHEMA_URL.to_owned(), Some((TEST_SCHEMA_URL.to_owned(), j(root)))),
            ("file:///taplo-test/defs/network.json".to_owned(), Some((TEST_SCHEMA_URL.to_owned(), j(network)))),
            ("file:///taplo-test/defs/port.json".to_owned(), Some((TEST_SCHEMA_URL.to_owned(), j(port)))),
        ],
    };
    let value = j(r#"{ "server": {} }"#);
    let found = drive(&mut k, |k| possible_schemas_from(k, TEST_SCHEMA_URL, &value, &vec![key("server")], 2));
    let port = found
        .iter()
        .find(|(_, relative, _)| path_text(relative) == "port")
        .map(|(_, _, s)| to_serde(s))
        .expect("no schema collected for `port`");
    assert_eq!(port["description"], "Port");
}

#[test]
fn unevaluated_items_ignores_failed_any_of_branches() {
    let docs = seeded(r#"{
        "$schema": "https://json-schema.org/draft/2020-12/schema",
        "properties": { "values": {
            "anyOf": [
                { "prefixItems": [{ "const": 1 }] },
                { "prefixItems": [{ "const": 2 }, { "type": "string" }] }
            ],
            "unevaluatedItems": { "type": "string", "description": "Tail" }
        } }
    }"#);
    assert_eq!(at(&docs, r#"{ "values": [1, "ok"] }"#, vec![key("values"), KeyOrIndex::Index(1)]), ["Tail"]);
}

#[test]
fn a_condition_holding_a_nested_reference_decides_its_branch() {
    let schema = r##"{
        "type": "object",
        "if": { "properties": { "kind": { "$ref": "#/definitions/isDocker" } }, "required": ["kind"] },
        "then": { "properties": { "image": { "description": "then branch" } } },
        "else": { "properties": { "image": { "description": "else branch" } } },
        "definitions": { "isDocker": { "const": "docker" } }
    }"##;
    for (kind, expected) in [("docker", "then branch"), ("podman", "else branch")] {
        let value = format!(r#"{{ "kind": "{kind}" }}"#);
        assert_eq!(at(&seeded(schema), &value, vec![key("image")]), [expected], "for kind = {kind}");
    }
}

#[test]
fn a_condition_holding_an_unresolvable_reference_takes_both_branches() {
    let docs = seeded(r##"{
        "type": "object",
        "if": {
            "properties": { "kind": { "$ref": "file:///taplo-test/missing.json#/definitions/isDocker" } },
            "required": ["kind"]
        },
        "then": { "properties": { "image": { "description": "then branch" } } },
        "else": { "properties": { "image": { "description": "else branch" } } }
    }"##);
    let mut found = at(&docs, r#"{ "kind": "docker" }"#, vec![key("image")]);
    found.sort_unstable();
    assert_eq!(found, ["else branch", "then branch"]);
}

#[test]
fn a_condition_holding_a_dangling_pointer_takes_both_branches() {
    let docs = seeded(r##"{
        "type": "object",
        "if": { "properties": { "kind": { "$ref": "#/definitions/nope" } }, "required": ["kind"] },
        "then": { "properties": { "image": { "description": "then branch" } } },
        "else": { "properties": { "image": { "description": "else branch" } } },
        "definitions": {}
    }"##);
    let mut found = at(&docs, r#"{ "kind": "docker" }"#, vec![key("image")]);
    found.sort_unstable();
    assert_eq!(found, ["else branch", "then branch"]);
}

#[test]
fn a_condition_that_does_not_compile_takes_both_branches() {
    let docs = seeded(r#"{
        "type": "object",
        "if": { "pattern": "(" },
        "then": { "properties": { "image": { "description": "then" } } },
        "else": { "properties": { "image": { "description": "else" } } }
    }"#);
    assert_eq!(at(&docs, r#"{ "kind": "docker" }"#, vec![key("image")]), ["then", "else"]);
}

#[test]
fn a_draft_4_root_still_decides_a_const_condition() {
    let mut schema: serde_json::Value = serde_json::from_str(CONDITIONAL).unwrap();
    schema["$schema"] = serde_json::Value::String("http://json-schema.org/draft-04/schema#".to_owned());
    let docs = seeded(&schema.to_string());
    assert_eq!(at(&docs, r#"{ "kind": "podman" }"#, vec![key("image")]), ["else"]);
}

#[test]
fn branches_without_a_condition_are_inert() {
    let docs = seeded(r#"{
        "type": "object",
        "then": { "properties": { "image": { "description": "then" } } },
        "else": { "properties": { "image": { "description": "else" } } }
    }"#);
    assert!(at(&docs, "{}", vec![key("image")]).is_empty());
}

#[test]
fn the_schema_carrying_a_condition_is_still_collected() {
    let docs = seeded(r#"{
        "type": "object",
        "properties": { "server": {
            "description": "carrier",
            "if": { "properties": { "kind": { "const": "docker" } }, "required": ["kind"] },
            "then": { "description": "then" }
        } }
    }"#);
    assert_eq!(at(&docs, r#"{ "server": { "kind": "docker" } }"#, vec![key("server")]), ["then", "carrier"]);
}

fn dependent_schema(keyword: &str) -> String {
    format!(r#"{{ "type": "object", "{keyword}": {{ "kind": {{ "properties": {{ "image": {{ "description": "dependent" }} }} }} }} }}"#)
}

#[test]
fn a_present_trigger_key_applies_its_dependent_schema() {
    for keyword in ["dependencies", "dependentSchemas"] {
        let docs = seeded(&dependent_schema(keyword));
        assert_eq!(at(&docs, r#"{ "kind": "docker" }"#, vec![key("image")]), ["dependent"], "keyword {keyword}");
    }
}

#[test]
fn an_absent_trigger_key_applies_nothing() {
    for keyword in ["dependencies", "dependentSchemas"] {
        let docs = seeded(&dependent_schema(keyword));
        assert!(at(&docs, r#"{ "other": 1 }"#, vec![key("image")]).is_empty(), "keyword {keyword}");
    }
}

#[test]
fn an_absent_instance_applies_every_dependent_schema() {
    let docs = seeded(r#"{
        "type": "object",
        "dependentSchemas": {
            "a": { "properties": { "image": { "description": "from a" } } },
            "b": { "properties": { "image": { "description": "from b" } } }
        }
    }"#);
    assert_eq!(at(&docs, "null", vec![key("image")]), ["from a", "from b"]);
}

#[test]
fn the_array_form_of_dependencies_applies_nothing() {
    for keyword in ["dependencies", "dependentRequired"] {
        let docs = seeded(&format!(r#"{{ "type": "object", "{keyword}": {{ "kind": ["image"] }} }}"#));
        assert!(at(&docs, r#"{ "kind": "docker" }"#, vec![key("image")]).is_empty(), "keyword {keyword}");
    }
}

#[test]
fn an_unevaluated_key_falls_back_to_unevaluated_properties() {
    let docs = seeded(r#"{
        "type": "object",
        "properties": { "known": { "description": "known" } },
        "unevaluatedProperties": { "description": "unevaluated" }
    }"#);
    assert_eq!(at(&docs, r#"{ "other": 1 }"#, vec![key("other")]), ["unevaluated"]);
}

#[test]
fn an_evaluated_key_does_not_fall_back() {
    let cases = [
        r#"{ "properties": { "known": { "description": "known" } } }"#,
        r#"{ "patternProperties": { "^kn": { "description": "known" } } }"#,
        r#"{ "additionalProperties": { "description": "known" } }"#,
        r#"{ "allOf": [{ "properties": { "known": { "description": "known" } } }] }"#,
        r#"{ "oneOf": [{ "properties": { "known": { "description": "known" } } }] }"#,
        r#"{ "anyOf": [{ "properties": { "known": { "description": "known" } } }] }"#,
        r#"{ "if": { "properties": { "kind": { "const": "a" } }, "required": ["kind"] },
             "then": { "properties": { "known": { "description": "known" } } } }"#,
        r#"{ "dependentSchemas": { "kind": { "properties": { "known": { "description": "known" } } } } }"#,
    ];
    for case in cases {
        let mut schema: serde_json::Value = serde_json::from_str(case).unwrap();
        schema["type"] = serde_json::Value::String("object".to_owned());
        schema["unevaluatedProperties"] = serde_json::from_str(r#"{ "description": "unevaluated" }"#).unwrap();
        let docs = seeded(&schema.to_string());
        assert_eq!(at(&docs, r#"{ "kind": "a", "known": 1 }"#, vec![key("known")]), ["known"], "case {case}");
    }
}

#[test]
fn a_key_only_the_unselected_branch_evaluates_falls_back() {
    let docs = seeded(r#"{
        "type": "object",
        "if": { "properties": { "kind": { "const": "a" } }, "required": ["kind"] },
        "then": { "properties": { "other": { "description": "then" } } },
        "unevaluatedProperties": { "description": "unevaluated" }
    }"#);
    assert_eq!(at(&docs, r#"{ "kind": "b", "other": 1 }"#, vec![key("other")]), ["unevaluated"]);
}

#[test]
fn a_deep_path_asks_about_its_head_key() {
    let cases = [
        r#"{ "allOf": [{ "properties": { "a": { "type": "object" } } }] }"#,
        r#"{ "additionalProperties": false }"#,
    ];
    for case in cases {
        let mut schema: serde_json::Value = serde_json::from_str(case).unwrap();
        schema["type"] = serde_json::Value::String("object".to_owned());
        schema["unevaluatedProperties"] =
            serde_json::from_str(r#"{ "properties": { "b": { "description": "unevaluated" } } }"#).unwrap();
        let docs = seeded(&schema.to_string());
        assert!(at(&docs, r#"{ "a": { "b": 1 } }"#, vec![key("a"), key("b")]).is_empty(), "case {case}");
    }
}

#[test]
fn a_boolean_unevaluated_properties_yields_nothing() {
    let docs = seeded(r#"{
        "type": "object",
        "properties": { "known": { "description": "known" } },
        "unevaluatedProperties": false
    }"#);
    assert!(at(&docs, r#"{ "other": 1 }"#, vec![key("other")]).is_empty());
}

#[test]
fn a_negated_subschema_is_never_traversed() {
    let schema = r#"{ "type": "object", "not": { "properties": { "banned": { "description": "banned" } } } }"#;
    assert!(at(&seeded(schema), r#"{ "banned": 1 }"#, vec![key("banned")]).is_empty());
    assert!(children(schema, "{}", 5).iter().all(|(relative, _)| relative != "banned"));
}

#[test]
fn property_names_is_never_the_schema_for_a_value() {
    let docs = seeded(r#"{ "type": "object", "propertyNames": { "pattern": "^[a-z]+$", "description": "names" } }"#);
    assert!(at(&docs, r#"{ "abc": 1 }"#, vec![key("abc")]).is_empty());
}

#[test]
fn contains_is_never_the_schema_for_an_index() {
    let docs = seeded(r#"{ "type": "object", "properties": { "list": {
        "type": "array",
        "contains": { "type": "string", "description": "contained" }
    } } }"#);
    assert!(at(&docs, r#"{ "list": ["x"] }"#, vec![key("list"), KeyOrIndex::Index(0)]).is_empty());
}

/// Documents under `file:///taplo-test/`, the first the root.
fn documents(docs: &[(&str, &str)]) -> Vec<(String, String)> {
    docs.iter().map(|(path, text)| (format!("file:///taplo-test/{path}"), text.to_string())).collect()
}

fn found_in(docs: &[(String, String)], value: &str, path: Vec<KeyOrIndex>) -> Vec<(Vec<KeyOrIndex>, serde_json::Value)> {
    let borrowed: Vec<(&str, &str)> = docs.iter().map(|(u, d)| (u.as_str(), d.as_str())).collect();
    found_at(&borrowed, value, path)
}

fn descriptions_in(docs: &[(String, String)], value: &str, path: Vec<KeyOrIndex>) -> Vec<String> {
    descriptions(&found_in(docs, value, path))
}

#[test]
fn a_relative_reference_resolves_against_the_document() {
    let docs = documents(&[
        ("schema.json", r#"{ "type": "object", "properties": { "port": { "$ref": "common.json#/definitions/port" } } }"#),
        ("common.json", r#"{ "definitions": { "port": { "description": "relative", "type": "integer" } } }"#),
    ]);
    assert_eq!(descriptions_in(&docs, "null", vec![key("port")]), ["relative"]);
}

#[test]
fn a_reference_walks_out_of_the_document_directory() {
    let docs = documents(&[
        (
            "nested/schema.json",
            r#"{ "type": "object", "properties": {
                "up": { "$ref": "../common.json#/definitions/port" },
                "rooted": { "$ref": "/taplo-test/common.json#/definitions/port" }
            } }"#,
        ),
        ("common.json", r#"{ "definitions": { "port": { "description": "shared", "type": "integer" } } }"#),
    ]);
    for name in ["up", "rooted"] {
        assert_eq!(descriptions_in(&docs, "null", vec![key(name)]), ["shared"], "at `{name}`");
    }
}

#[test]
fn an_absolute_reference_carrying_a_pointer_resolves() {
    let docs = documents(&[
        (
            "schema.json",
            r#"{ "type": "object", "properties": { "port": { "$ref": "file:///taplo-test/common.json#/definitions/port" } } }"#,
        ),
        ("common.json", r#"{ "definitions": { "port": { "description": "absolute", "type": "integer" } } }"#),
    ]);
    assert_eq!(descriptions_in(&docs, "null", vec![key("port")]), ["absolute"]);
}

#[test]
fn a_reference_to_the_whole_document_resolves() {
    let docs = seeded(r##"{ "description": "the root", "type": "object", "properties": { "child": { "$ref": "#" } } }"##);
    assert_eq!(at(&docs, "null", vec![key("child")]), ["the root"]);
}

#[test]
fn a_fragment_is_percent_decoded_and_unescaped() {
    let docs = seeded(r##"{
        "type": "object",
        "properties": {
            "spaced": { "$ref": "#/definitions/two words" },
            "slashed": { "$ref": "#/definitions/a~1b" }
        },
        "definitions": {
            "two words": { "description": "spaced", "type": "integer" },
            "a/b": { "description": "slashed", "type": "integer" }
        }
    }"##);
    for (name, expected) in [("spaced", "spaced"), ("slashed", "slashed")] {
        assert_eq!(at(&docs, "null", vec![key(name)]), [expected], "at `{name}`");
    }
}

#[test]
fn defs_and_definitions_resolve_under_every_draft() {
    for meta in [
        "http://json-schema.org/draft-07/schema#",
        "https://json-schema.org/draft/2019-09/schema",
        "https://json-schema.org/draft/2020-12/schema",
    ] {
        let docs = seeded(&format!(
            r##"{{
                "$schema": "{meta}",
                "type": "object",
                "properties": {{ "new": {{ "$ref": "#/$defs/port" }}, "old": {{ "$ref": "#/definitions/port" }} }},
                "$defs": {{ "port": {{ "description": "defs", "type": "integer" }} }},
                "definitions": {{ "port": {{ "description": "definitions", "type": "integer" }} }}
            }}"##
        ));
        for (name, expected) in [("new", "defs"), ("old", "definitions")] {
            assert_eq!(at(&docs, "null", vec![key(name)]), [expected], "at `{name}` under {meta}");
        }
    }
}

#[test]
fn an_inner_id_rebases_the_references_beneath_it() {
    let docs = documents(&[
        (
            "schema.json",
            r##"{ "type": "object", "properties": { "port": { "$ref": "#/definitions/wrapper" } },
                "definitions": { "wrapper": { "$id": "defs/", "$ref": "port.json" } } }"##,
        ),
        ("defs/port.json", r#"{ "description": "rescoped", "type": "integer" }"#),
    ]);
    assert_eq!(descriptions_in(&docs, "null", vec![key("port")]), ["rescoped"]);
}

#[test]
fn a_reference_rebases_at_the_document_it_reaches() {
    let docs = documents(&[
        ("schema.json", r#"{ "type": "object", "properties": { "port": { "$ref": "sub/inner.json#/definitions/port" } } }"#),
        ("sub/inner.json", r#"{ "definitions": { "port": { "$ref": "port.json" } } }"#),
        ("sub/port.json", r#"{ "description": "beside inner", "type": "integer" }"#),
    ]);
    assert_eq!(descriptions_in(&docs, "null", vec![key("port")]), ["beside inner"]);
}

#[test]
fn a_pointer_crossing_an_id_rebases_beneath_it() {
    let docs = documents(&[
        (
            "schema.json",
            r##"{ "type": "object", "properties": { "port": { "$ref": "#/definitions/sub/properties/x" } },
                "definitions": { "sub": { "$id": "sub/", "properties": { "x": { "$ref": "port.json" } } } } }"##,
        ),
        ("sub/port.json", r#"{ "description": "under sub", "type": "integer" }"#),
    ]);
    assert_eq!(descriptions_in(&docs, "null", vec![key("port")]), ["under sub"]);
}

#[test]
fn a_sibling_description_wins_over_the_target() {
    let docs = seeded(r##"{
        "type": "object",
        "properties": { "port": { "$ref": "#/definitions/port", "description": "the sibling" } },
        "definitions": { "port": { "description": "the target", "type": "integer" } }
    }"##);
    let borrowed: Vec<(&str, &str)> = docs.iter().map(|(u, d)| (*u, d.as_str())).collect();
    let found = found_at(&borrowed, "null", vec![key("port")]);
    assert_eq!(descriptions(&found), ["the sibling"]);
    assert_eq!(found[0].1["type"], "integer");
    assert_eq!(found.len(), 1, "the carrier and the target are one schema");
}

#[test]
fn a_sibling_enum_replaces_the_target_enum() {
    let docs = seeded(r##"{
        "type": "object",
        "properties": { "kind": { "$ref": "#/definitions/kind", "enum": ["a"] } },
        "definitions": { "kind": { "type": "string", "enum": ["b", "c"] } }
    }"##);
    let borrowed: Vec<(&str, &str)> = docs.iter().map(|(u, d)| (*u, d.as_str())).collect();
    let found = found_at(&borrowed, "null", vec![key("kind")]);
    assert_eq!(found[0].1["enum"], serde_json::from_str::<serde_json::Value>(r#"["a"]"#).unwrap());
}

#[test]
fn a_sibling_required_unions_with_the_target() {
    let docs = seeded(r##"{
        "type": "object",
        "properties": { "server": { "$ref": "#/definitions/server", "required": ["extra"] } },
        "definitions": { "server": { "type": "object", "required": ["name"] } }
    }"##);
    let borrowed: Vec<(&str, &str)> = docs.iter().map(|(u, d)| (*u, d.as_str())).collect();
    let found = found_at(&borrowed, "null", vec![key("server")]);
    let required = found[0].1["required"].as_array().unwrap();
    assert!(required.contains(&serde_json::Value::from("name")) && required.contains(&serde_json::Value::from("extra")));
}

#[test]
fn sibling_properties_union_with_the_target() {
    let docs = documents(&[
        (
            "schema.json",
            r##"{ "type": "object",
                "properties": { "server": {
                    "$ref": "sub/server.json",
                    "properties": { "extra": { "$ref": "#/definitions/extra" } }
                } },
                "definitions": { "extra": { "description": "sibling extra", "type": "string" } } }"##,
        ),
        (
            "sub/server.json",
            r#"{ "type": "object", "properties": { "name": { "description": "target name", "type": "string" } } }"#,
        ),
    ]);
    for (path, expected) in [(["server", "extra"], "sibling extra"), (["server", "name"], "target name")] {
        assert_eq!(descriptions_in(&docs, "null", vec![key(path[0]), key(path[1])]), [expected], "at `{path:?}`");
    }
}

#[test]
fn a_sibling_unevaluated_properties_applies() {
    let docs = seeded(r##"{
        "type": "object",
        "properties": { "obj": {
            "$ref": "#/definitions/obj",
            "unevaluatedProperties": { "description": "anything else", "type": "string" }
        } },
        "definitions": { "obj": { "type": "object", "properties": { "known": { "type": "string" } } } }
    }"##);
    assert_eq!(at(&docs, "null", vec![key("obj"), key("unknown")]), ["anything else"]);
}

#[test]
fn a_composed_all_of_member_keeps_its_own_document() {
    let docs = documents(&[
        (
            "schema.json",
            r#"{ "type": "object", "properties": { "server": {
                "description": "carrier",
                "allOf": [{ "$ref": "sub/server.json" }]
            } } }"#,
        ),
        (
            "sub/server.json",
            r##"{ "type": "object", "properties": { "name": { "$ref": "#/definitions/name" } },
                "definitions": { "name": { "description": "member name", "type": "string" } } }"##,
        ),
    ]);
    let mut k = Knowledge { documents: Vec::new() };
    for (url, text) in &docs {
        k.documents.push((url.clone(), Some((url.clone(), j(text)))));
    }
    let found = drive(&mut k, |k| possible_schemas_from(k, &docs[0].0, &JsonValue::Null, &vec![], 5));
    let name = found
        .iter()
        .find(|(_, relative, _)| path_text(relative) == "server.name")
        .map(|(_, _, s)| to_serde(s))
        .expect("no schema for `server.name`");
    assert_eq!(name["description"], "member name", "got {name}");
}

#[test]
fn a_defs_container_beside_a_ref_is_not_a_sibling() {
    let docs = seeded(r##"{
        "$ref": "#/$defs/model",
        "$defs": { "model": { "type": "object", "properties": { "port": { "description": "the model", "type": "integer" } } } }
    }"##);
    assert_eq!(at(&docs, "null", vec![key("port")]), ["the model"]);
}

#[test]
fn an_embedded_resource_is_found_by_its_own_url() {
    let docs = seeded(r#"{
        "properties": { "port": { "$ref": "defs/port.json" } },
        "$defs": { "port": { "$id": "defs/port.json", "type": "integer", "description": "Port" } }
    }"#);
    assert_eq!(at(&docs, "null", vec![key("port")]), ["Port"]);
}

#[test]
fn a_known_document_outranks_an_embedded_resource_of_the_same_url() {
    let root = r#"{
        "properties": { "port": { "$ref": "defs/port.json" } },
        "$defs": { "port": { "$id": "defs/port.json", "description": "embedded" } }
    }"#;
    let docs = [(TEST_SCHEMA_URL, root), ("file:///taplo-test/defs/port.json", r#"{ "description": "loaded" }"#)];
    assert_eq!(descriptions(&found_at(&docs, "null", vec![key("port")])), ["loaded"]);
}

#[test]
fn a_condition_naming_an_embedded_resource_is_decided() {
    let docs = seeded(r#"{
        "type": "object",
        "if": { "$ref": "defs/docker.json" },
        "then": { "properties": { "image": { "description": "then" } } },
        "else": { "properties": { "image": { "description": "else" } } },
        "$defs": { "docker": {
            "$id": "defs/docker.json",
            "properties": { "kind": { "const": "docker" } },
            "required": ["kind"]
        } }
    }"#);
    assert_eq!(at(&docs, r#"{ "kind": "docker" }"#, vec![key("image")]), ["then"]);
    assert_eq!(at(&docs, r#"{ "kind": "podman" }"#, vec![key("image")]), ["else"]);
}

#[test]
fn validation_reaches_a_resource_another_document_embeds() {
    let root = r#"{ "properties": { "port": { "$ref": "defs/port.json" } } }"#;
    let library = r#"{ "$defs": { "port": { "$id": "defs/port.json", "type": "integer" } } }"#;
    let docs = [
        (TEST_SCHEMA_URL, root.to_owned()),
        ("file:///taplo-test/library.json", library.to_owned()),
    ];
    assert!(violations(&docs, r#"{ "port": 80 }"#).is_empty());
    assert_eq!(violations(&docs, r#"{ "port": "eighty" }"#).len(), 1);
}
