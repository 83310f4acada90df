use taplo_schema::json::{JsonNumber, JsonValue};
use taplo_schema::jsontext::to_json_text;
use taplo_schema::schema::{declared_draft, validation_draft, KeyOrIndex, SchemaDraft};
use taplo_schema::traversal::{schemas_at_path, Halt, Knowledge, Need, TraversalError};
use taplo_schema::validation::{
    condition_verdict, validate, validate_root, NodeValidationError, PlacementError, RootValidationError,
    SchemaViolation,
};

const BASE: &str = "file:///taplo-test/";

fn j(text: &str) -> JsonValue {
    from_serde(&serde_json::from_str(text).unwrap())
}

fn from_serde(v: &serde_json::Value) -> JsonValue {
    match v {
        serde_json::Value::Null => JsonValue::Null,
        serde_json::Value::Bool(b) => JsonValue::Bool(*b),
        serde_json::Value::Number(n) => JsonValue::Number(if let Some(u) = n.as_u64() {
            JsonNumber::PosInt(u)
        } else if let Some(i) = n.as_i64() {
            JsonNumber::NegInt(i)
        } else {
            JsonNumber::Float { text: n.to_string(), zero: n.as_f64() == Some(0.0) }
        }),
        serde_json::Value::String(s) => JsonValue::String(s.clone()),
        serde_json::Value::Array(items) => JsonValue::Array(items.iter().map(from_serde).collect()),
        serde_json::Value::Object(map) => JsonValue::Object(
            map.iter().map(|(k, v)| (k.clone(), from_serde(v))).collect(),
        ),
    }
}

/// What is known before anything is fetched: each document by its URL
/// under `file:///taplo-test/`; the first is the root.
fn seeded(documents: &[(&str, &str)]) -> (Knowledge, String) {
    let mut k = Knowledge { documents: Vec::new() };
    for (path, text) in documents {
        let url = format!("{BASE}{path}");
        k.documents.push((url.clone(), Some((url, j(text)))));
    }
    let root = k.documents[0].0.clone();
    (k, root)
}

/// Validates to the end, marking documents it asks for as unloadable.
fn violations(k: &mut Knowledge, url: &str, value: &str) -> Vec<SchemaViolation> {
    let value = j(value);
    for _ in 0..20 {
        match validate(k, url, &value) {
            Ok(v) => return v,
            Err(Halt::Needs(Need::Document(u))) => k.documents.push((u, None)),
            Err(h) => panic!("validation stopped: {h:?}"),
        }
    }
    panic!("validation kept asking")
}

fn errors_for(schema: &str, value: &str) -> Vec<SchemaViolation> {
    let (mut k, url) = seeded(&[("schema.json", schema)]);
    violations(&mut k, &url, value)
}

fn path_text(p: &[KeyOrIndex]) -> String {
    p.iter()
        .map(|s| match s {
            KeyOrIndex::Key(k) => k.clone(),
            KeyOrIndex::Index(i) => i.to_string(),
        })
        .collect::<Vec<_>>()
        .join(".")
}

fn unevaluated_properties_schema(declared: &str) -> String {
    format!(
        r#"{{ "$schema": "{declared}", "type": "object", "properties": {{ "a": {{ "type": "string" }} }}, "unevaluatedProperties": false }}"#
    )
}

fn draft_of(schema: &str) -> SchemaDraft {
    validation_draft(&declared_draft(&j(schema)))
}

#[test]
fn draft_2020_12_without_a_fragment_is_honored() {
    let schema = unevaluated_properties_schema("https://json-schema.org/draft/2020-12/schema");
    assert_eq!(draft_of(&schema), SchemaDraft::Draft202012);
    assert_eq!(errors_for(&schema, r#"{ "a": "x", "b": 1 }"#).len(), 1);
}

#[test]
fn draft_2020_12_with_a_fragment_is_honored() {
    let schema = unevaluated_properties_schema("https://json-schema.org/draft/2020-12/schema#");
    assert_eq!(draft_of(&schema), SchemaDraft::Draft202012);
    assert_eq!(errors_for(&schema, r#"{ "a": "x", "b": 1 }"#).len(), 1);
}

#[test]
fn draft_2019_09_is_honored() {
    let schema = unevaluated_properties_schema("https://json-schema.org/draft/2019-09/schema");
    assert_eq!(draft_of(&schema), SchemaDraft::Draft201909);
    assert_eq!(errors_for(&schema, r#"{ "a": "x", "b": 1 }"#).len(), 1);
}

#[test]
fn an_unsupported_draft_falls_back_to_draft_7() {
    let schema = unevaluated_properties_schema("http://json-schema.org/draft-03/schema#");
    assert_eq!(draft_of(&schema), SchemaDraft::Draft7);
    assert!(errors_for(&schema, r#"{ "a": "x", "b": 1 }"#).is_empty());
}

#[test]
fn a_schema_without_a_declaration_is_draft_7() {
    let schema = r#"{ "type": "object", "properties": { "a": { "type": "string" } } }"#;
    assert_eq!(draft_of(schema), SchemaDraft::Draft7);
    assert!(errors_for(schema, r#"{ "a": "x" }"#).is_empty());
}

#[test]
fn custom_formats_still_assert_under_draft_2020_12() {
    let schema = r#"{
        "$schema": "https://json-schema.org/draft/2020-12/schema",
        "type": "object",
        "properties": { "version": { "type": "string", "format": "semver" } }
    }"#;
    assert_eq!(draft_of(schema), SchemaDraft::Draft202012);
    assert_eq!(errors_for(schema, r#"{ "version": "not a version" }"#).len(), 1);
    assert!(errors_for(schema, r#"{ "version": "1.2.3" }"#).is_empty());
}

#[test]
fn the_semver_requirement_format_asserts() {
    let schema = r#"{ "properties": { "req": { "type": "string", "format": "semver-requirement" } } }"#;
    assert!(errors_for(schema, r#"{ "req": ">=1.2, <2" }"#).is_empty());
    assert_eq!(errors_for(schema, r#"{ "req": "not a requirement" }"#).len(), 1);
}

#[test]
fn a_violation_names_where_it_is() {
    let found = errors_for(r#"{ "properties": { "a": { "type": "string" } } }"#, r#"{ "a": 1 }"#);
    assert_eq!(found.len(), 1);
    assert_eq!(path_text(&found[0].instance_path), "a");
    assert!(found[0].unexpected.is_empty());
    assert!(found[0].message.contains("string"), "{}", found[0].message);
}

#[test]
fn remaining_unevaluated_items_validate_and_supply_tail_schemas() {
    let schema = r#"{
        "$schema": "https://json-schema.org/draft/2020-12/schema",
        "properties": { "values": {
            "type": "array",
            "allOf": [{ "prefixItems": [{ "type": "integer", "description": "Head" }] }],
            "unevaluatedItems": { "type": "string", "description": "Tail", "enum": ["ok"] }
        }}
    }"#;
    let (k, url) = seeded(&[("schema.json", schema)]);
    match validate_root(&k, &url, &j(r#"{ "values": [1, 2] }"#)) {
        Ok(errors) => assert!(!errors.is_empty()),
        Err(_) => panic!("validation stopped"),
    }
    assert!(errors_for(schema, r#"{ "values": [1, "ok"] }"#).is_empty());
    for (index, expected) in [(0_usize, "Head"), (1, "Tail")] {
        let path = vec![KeyOrIndex::Key("values".to_owned()), KeyOrIndex::Index(index)];
        let found = match schemas_at_path(&k, &url, &j(r#"{ "values": [1, "ok"] }"#), &path) {
            Ok(f) => f,
            Err(h) => panic!("traversal stopped: {h:?}"),
        };
        let descriptions: Vec<String> = found
            .iter()
            .filter_map(|(_, s)| match s.get("description") {
                Some(JsonValue::String(d)) => Some(d.clone()),
                _ => None,
            })
            .collect();
        assert_eq!(descriptions, [expected]);
    }
}

#[test]
fn dynamic_and_recursive_refs_validate_nested_toml() {
    for (draft, anchor, reference) in [
        ("2020-12", r#""$dynamicAnchor": "node""#, r##"{ "$dynamicRef": "#node" }"##),
        ("2019-09", r#""$recursiveAnchor": true"#, r##"{ "$recursiveRef": "#" }"##),
    ] {
        let schema = format!(
            r#"{{ "$schema": "https://json-schema.org/draft/{draft}/schema", {anchor}, "type": "object",
                "properties": {{ "value": {{ "type": "integer" }}, "child": {reference} }} }}"#
        );
        let (k, url) = seeded(&[("schema.json", &schema)]);
        let invalid = j(r#"{ "value": 1, "child": { "value": "bad" } }"#);
        let errors = match validate_root(&k, &url, &invalid) {
            Ok(e) => e,
            Err(_) => panic!("{draft}: validation stopped"),
        };
        assert_eq!(errors.len(), 1, "{draft}");
        assert_eq!(path_text(&errors[0].keys), "child.value");
        let valid = j(r#"{ "value": 1, "child": { "value": 2 } }"#);
        match validate_root(&k, &url, &valid) {
            Ok(e) => assert!(e.is_empty(), "{draft}"),
            Err(_) => panic!("{draft}: validation stopped"),
        }
    }
}

#[test]
fn additional_properties_name_the_keys_they_refuse() {
    let schema = r#"{ "type": "object", "properties": { "a": {} }, "additionalProperties": false }"#;
    let (k, url) = seeded(&[("schema.json", schema)]);
    let root = j(r#"{ "a": 1, "x": 2 }"#);
    let errors = match validate_root(&k, &url, &root) {
        Ok(e) => e,
        Err(_) => panic!("validation stopped"),
    };
    assert_eq!(errors.len(), 1);
    assert_eq!(errors[0].error.unexpected, ["x"]);
    assert_eq!(path_text(&errors[0].keys), "x");
    assert_eq!(to_json_text(&errors[0].node), to_json_text(&root));
}

#[test]
fn a_violation_is_placed_at_the_node_its_path_leads_to() {
    let root = j(r#"{ "servers": [{ "port": "x" }] }"#);
    let placed = NodeValidationError::new(
        &root,
        SchemaViolation {
            instance_path: vec![
                KeyOrIndex::Key("servers".to_owned()),
                KeyOrIndex::Index(0),
                KeyOrIndex::Key("port".to_owned()),
            ],
            unexpected: vec![],
            message: "wrong".to_owned(),
        },
    )
    .unwrap_or_else(|_| panic!("not placed"));
    assert_eq!(path_text(&placed.keys), "servers.0.port");
    assert_eq!(to_json_text(&placed.node), r#""x""#);
}

#[test]
fn a_path_through_a_missing_key_cannot_be_placed() {
    let root = j(r#"{ "a": 1 }"#);
    let v = SchemaViolation { instance_path: vec![KeyOrIndex::Key("b".to_owned())], unexpected: vec![], message: String::new() };
    assert!(matches!(NodeValidationError::new(&root, v), Err(PlacementError::InvalidKey)));
    let v = SchemaViolation { instance_path: vec![KeyOrIndex::Index(0)], unexpected: vec![], message: String::new() };
    assert!(matches!(NodeValidationError::new(&root, v), Err(PlacementError::InvalidIndex)));
    let root = j(r#"[1]"#);
    let v = SchemaViolation { instance_path: vec![KeyOrIndex::Index(3)], unexpected: vec![], message: String::new() };
    assert!(matches!(NodeValidationError::new(&root, v), Err(PlacementError::InvalidIndex)));
}

#[test]
fn a_missing_document_is_asked_for() {
    let (k, url) = seeded(&[("schema.json", r#"{ "properties": { "port": { "$ref": "common.json#/definitions/port" } } }"#)]);
    match validate(&k, &url, &j(r#"{ "port": 1 }"#)) {
        Err(Halt::Needs(Need::Document(u))) => assert_eq!(u, "file:///taplo-test/common.json"),
        Err(h) => panic!("unexpected halt {h:?}"),
        Ok(_) => panic!("validated without the referenced document"),
    }
}

#[test]
fn an_unloadable_document_fails_validation() {
    let (mut k, url) = seeded(&[("schema.json", r#"{ "properties": { "port": { "$ref": "common.json" } } }"#)]);
    k.documents.push(("file:///taplo-test/common.json".to_owned(), None));
    match validate(&k, &url, &j(r#"{ "port": 1 }"#)) {
        Err(Halt::Failed(TraversalError::Unloadable(u))) => assert_eq!(u, "file:///taplo-test/common.json"),
        other => panic!("unexpected outcome {:?}", other.map(|v| v.len())),
    }
    let (k, _) = seeded(&[("schema.json", "{}")]);
    match validate(&k, "file:///taplo-test/elsewhere.json", &JsonValue::Null) {
        Err(Halt::Needs(Need::Document(u))) => assert_eq!(u, "file:///taplo-test/elsewhere.json"),
        other => panic!("unexpected outcome {:?}", other.map(|v| v.len())),
    }
}

#[test]
fn an_invalid_schema_fails_validation() {
    let (k, url) = seeded(&[("schema.json", r#"{ "type": 12 }"#)]);
    match validate(&k, &url, &j("1")) {
        Err(Halt::Failed(TraversalError::InvalidSchema(_))) => {}
        other => panic!("unexpected outcome {:?}", other.map(|v| v.len())),
    }
}

#[test]
fn traversal_and_validation_agree_on_every_reference_shape() {
    let shapes: &[(&str, &str)] = &[
        ("pointer", r##"{ "$ref": "#/definitions/port" }"##),
        ("defs-pointer", r##"{ "$ref": "#/$defs/port" }"##),
        ("relative", r##"{ "$ref": "common.json#/definitions/port" }"##),
        ("absolute", r##"{ "$ref": "file:///taplo-test/common.json#/definitions/port" }"##),
        ("anchor", r##"{ "$ref": "#port" }"##),
        ("rescoped", r##"{ "$ref": "#/definitions/wrapper" }"##),
    ];
    for (name, reference) in shapes {
        let schema = format!(
            r##"{{ "type": "object", "properties": {{ "port": {reference} }},
                "definitions": {{
                    "port": {{ "description": "{name}", "type": "integer" }},
                    "anchored": {{ "$id": "#port", "description": "{name}", "type": "integer" }},
                    "wrapper": {{ "$id": "defs/", "$ref": "port.json" }}
                }},
                "$defs": {{ "port": {{ "description": "{name}", "type": "integer" }} }} }}"##
        );
        let common = format!(r#"{{ "definitions": {{ "port": {{ "description": "{name}", "type": "integer" }} }} }}"#);
        let port = format!(r#"{{ "description": "{name}", "type": "integer" }}"#);
        let (mut k, url) = seeded(&[("schema.json", &schema), ("common.json", &common), ("defs/port.json", &port)]);
        let found = match schemas_at_path(&k, &url, &JsonValue::Null, &vec![KeyOrIndex::Key("port".to_owned())]) {
            Ok(f) => f,
            Err(h) => panic!("traversal failed for `{name}`: {h:?}"),
        };
        assert_eq!(found.len(), 1, "traversal, `{name}`");
        let errors = violations(&mut k, &url, r#"{ "port": "not an integer" }"#);
        assert_eq!(errors.len(), 1, "validation, `{name}`");
        assert!(errors[0].message.contains("integer"), "validation, `{name}`: {}", errors[0].message);
    }
}

#[test]
fn a_relative_root_id_does_not_break_compilation() {
    let schema = r#"{ "$id": "schema.json", "type": "object", "properties": { "port": { "type": "integer" } } }"#;
    assert_eq!(errors_for(schema, r#"{ "port": "not an integer" }"#).len(), 1);
}

#[test]
fn a_draft_4_root_resolves_a_relative_reference() {
    let (mut k, url) = seeded(&[
        (
            "schema.json",
            r#"{ "$schema": "http://json-schema.org/draft-04/schema#", "type": "object",
                 "properties": { "port": { "$ref": "common.json#/definitions/port" } } }"#,
        ),
        ("common.json", r#"{ "definitions": { "port": { "type": "integer" } } }"#),
    ]);
    let errors = violations(&mut k, &url, r#"{ "port": "not an integer" }"#);
    assert_eq!(errors.len(), 1);
    assert!(errors[0].message.contains("integer"), "{}", errors[0].message);
}

#[test]
fn a_condition_is_decided_by_the_validator() {
    let (k, url) = seeded(&[("schema.json", "{}")]);
    let condition = j(r#"{ "properties": { "kind": { "const": "docker" } }, "required": ["kind"] }"#);
    let verdict = |instance: &str| match condition_verdict(&k, &url, &condition, &j(instance)) {
        Ok(v) => v,
        Err(h) => panic!("condition stopped: {h:?}"),
    };
    assert_eq!(verdict(r#"{ "kind": "docker" }"#), Some(true));
    assert_eq!(verdict(r#"{ "kind": "binary" }"#), Some(false));
    assert_eq!(verdict("null"), None);
    let broken = j(r#"{ "type": 12 }"#);
    assert!(matches!(condition_verdict(&k, &url, &broken, &j("1")), Ok(None)));
}

#[test]
fn a_condition_asks_for_a_document_it_reaches() {
    let (k, url) = seeded(&[("schema.json", "{}")]);
    let condition = j(r#"{ "$ref": "other.json" }"#);
    match condition_verdict(&k, &url, &condition, &j("1")) {
        Err(Halt::Needs(Need::Document(u))) => assert_eq!(u, "file:///taplo-test/other.json"),
        Err(h) => panic!("unexpected halt {h:?}"),
        Ok(v) => panic!("decided without the document: {v:?}"),
    }
}

#[test]
fn a_placement_failure_is_reported_as_such() {
    let (k, url) = seeded(&[("schema.json", r#"{ "required": ["a"] }"#)]);
    match validate_root(&k, &url, &j("{}")) {
        Ok(errors) => assert_eq!(errors.len(), 1),
        Err(RootValidationError::Halted(h)) => panic!("halted: {h:?}"),
        Err(RootValidationError::Placement(p)) => panic!("not placed: {p:?}"),
    }
}

fn descriptions_at(k: &Knowledge, url: &str, key: &str) -> Vec<String> {
    let found = match schemas_at_path(k, url, &JsonValue::Null, &vec![KeyOrIndex::Key(key.to_owned())]) {
        Ok(f) => f,
        Err(h) => panic!("traversal stopped: {h:?}"),
    };
    found
        .iter()
        .filter_map(|(_, s)| match s.get("description") {
            Some(JsonValue::String(d)) => Some(d.clone()),
            _ => None,
        })
        .collect()
}

#[test]
fn a_plain_name_fragment_resolves_to_the_id_that_claims_it() {
    let (k, url) = seeded(&[(
        "schema.json",
        r##"{
            "$id": "file:///taplo-test/schema.json",
            "type": "object",
            "properties": { "port": { "$ref": "#port" } },
            "definitions": { "port": { "$id": "#port", "description": "anchored", "type": "integer" } }
        }"##,
    )]);
    assert_eq!(descriptions_at(&k, &url, "port"), ["anchored"]);
}

#[test]
fn an_anchor_keyword_resolves_in_both_halves() {
    let (mut k, url) = seeded(&[(
        "schema.json",
        r##"{
            "$id": "file:///taplo-test/schema.json",
            "$schema": "https://json-schema.org/draft/2020-12/schema",
            "type": "object",
            "properties": { "port": { "$ref": "#port" } },
            "$defs": { "port": { "$anchor": "port", "description": "anchored", "type": "integer" } }
        }"##,
    )]);
    assert_eq!(descriptions_at(&k, &url, "port"), ["anchored"]);
    let errors = violations(&mut k, &url, r#"{ "port": "not an integer" }"#);
    assert_eq!(errors.len(), 1);
    assert!(errors[0].message.contains("integer"), "{}", errors[0].message);
}

#[test]
fn remaining_embedded_resource_resolves_without_fetching_a_file() {
    let (mut k, url) = seeded(&[(
        "schema.json",
        r##"{
            "$schema": "https://json-schema.org/draft/2020-12/schema",
            "properties": { "port": { "$ref": "defs/network.json#port" } },
            "$defs": { "network": {
                "$id": "defs/network.json",
                "$defs": { "port": { "$anchor": "port", "description": "Network port", "type": "integer" } }
            }}
        }"##,
    )]);
    assert_eq!(descriptions_at(&k, &url, "port"), ["Network port"]);
    assert!(!violations(&mut k, &url, r#"{ "port": "bad" }"#).is_empty());
    assert!(violations(&mut k, &url, r#"{ "port": 80 }"#).is_empty());
}

#[test]
fn an_anchor_no_schema_claims_does_not_resolve() {
    let (k, url) = seeded(&[(
        "schema.json",
        r##"{ "properties": { "port": { "$ref": "#nowhere" } } }"##,
    )]);
    match schemas_at_path(&k, &url, &JsonValue::Null, &vec![KeyOrIndex::Key("port".to_owned())]) {
        Err(Halt::Failed(TraversalError::Unresolved(u))) => assert_eq!(u, "file:///taplo-test/schema.json#nowhere"),
        Err(h) => panic!("unexpected halt {h:?}"),
        Ok(found) => panic!("resolved to {} schemas", found.len()),
    }
}
