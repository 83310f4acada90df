use taplo_schema::ext::schema_ext_of;
use taplo_schema::hover::{key_hover_content, value_hover_content};
use taplo_schema::json::{JsonNumber, JsonValue};
use taplo_schema::schema::KeyOrIndex;
use taplo_schema::traversal::{schemas_at_path, Knowledge};

const SCHEMA_URL: &str = "file:///taplo-test/schema.json";

fn j(text: &str) -> JsonValue {
    convert(&serde_json::from_str(text).unwrap())
}

fn convert(v: &serde_json::Value) -> JsonValue {
    match v {
        serde_json::Value::Null => JsonValue::Null,
        serde_json::Value::Bool(b) => JsonValue::Bool(*b),
        serde_json::Value::Number(n) => JsonValue::Number(if let Some(u) = n.as_u64() {
            JsonNumber::PosInt(u)
        } else if let Some(i) = n.as_i64() {
            JsonNumber::NegInt(i)
        } else {
            JsonNumber::Float { text: n.to_string(), zero: n.as_f64() == Some(0.0) }
        }),
        serde_json::Value::String(s) => JsonValue::String(s.clone()),
        serde_json::Value::Array(items) => JsonValue::Array(items.iter().map(convert).collect()),
        serde_json::Value::Object(map) => JsonValue::Object(
            map.iter().map(|(k, v)| (k.clone(), convert(v))).collect(),
        ),
    }
}

/// TOML inline literals of JSON values; `null` has none.
fn toml(v: &JsonValue, _single_quote: bool) -> Option<String> {
    match v {
        JsonValue::Null => None,
        JsonValue::Bool(b) => Some(b.to_string()),
        JsonValue::Number(n) => Some(n.to_text()),
        JsonValue::String(s) => Some(format!("\"{s}\"")),
        JsonValue::Array(items) => {
            let parts: Option<Vec<String>> = items.iter().map(|x| toml(x, false)).collect();
            Some(format!("[ {} ]", parts?.join(", ")))
        }
        JsonValue::Object(entries) => {
            let parts: Option<Vec<String>> = entries
                .iter()
                .map(|(k, v)| toml(v, false).map(|t| format!("{k} = {t}")))
                .collect();
            Some(format!("{{ {} }}", parts?.join(", ")))
        }
    }
}

fn key(k: &str) -> KeyOrIndex {
    KeyOrIndex::Key(k.to_owned())
}

/// The schemas that apply at `path` of the document `document` (the JSON
/// the TOML document reads as) under `schema`.
fn schemas_at(schema: &str, document: &str, path: Vec<KeyOrIndex>) -> Vec<JsonValue> {
    let k = Knowledge { documents: vec![(SCHEMA_URL.to_owned(), Some((SCHEMA_URL.to_owned(), j(schema))))] };
    match schemas_at_path(&k, SCHEMA_URL, &j(document), &path) {
        Ok(found) => found.into_iter().map(|(_, s)| s).collect(),
        Err(h) => panic!("schema resolution failed: {h:?}"),
    }
}

/// What a hover over the key at `path` shows, links in the hover as the
/// server's default configuration has them.
fn hover_over_key(schema: &str, document: &str, path: Vec<KeyOrIndex>) -> Option<String> {
    key_hover_content(&schemas_at(schema, document, path), true, &|v: &JsonValue| toml(v, false))
}

/// What a hover over the value at `path` shows.
fn hover_over_value(schema: &str, document: &str, path: Vec<KeyOrIndex>, value: &str) -> Option<String> {
    value_hover_content(&schemas_at(schema, document, path), &j(value), true)
}

/// Hovers the key of `port = 8080` under a schema holding `property` for it.
fn key_hover_for(property: &str) -> Option<String> {
    hover_over_key(
        &format!(r#"{{ "type": "object", "properties": {{ "port": {property} }} }}"#),
        r#"{ "port": 8080 }"#,
        vec![key("port")],
    )
}

#[test]
fn key_hover_prefers_the_markdown_description() {
    assert_eq!(
        key_hover_for(r#"{ "type": "integer", "markdownDescription": "**rich**", "description": "plain" }"#).as_deref(),
        Some("**rich**")
    );
}

#[test]
fn value_hover_reads_the_schema_at_the_key() {
    let schema = r#"{ "type": "object", "properties": { "port": { "type": "integer", "title": "Port" } } }"#;
    assert_eq!(hover_over_value(schema, r#"{ "port": 8080 }"#, vec![key("port")], "8080").as_deref(), Some("Port"));
}

#[test]
fn key_hover_lists_examples() {
    assert_eq!(key_hover_for(r#"{ "type": "integer", "examples": [80, 443] }"#).unwrap(), "- Examples: `80`, `443`");
}

#[test]
fn key_hover_skips_examples_that_are_not_toml_values() {
    assert_eq!(key_hover_for(r#"{ "type": "integer", "examples": [80, null] }"#).unwrap(), "- Examples: `80`");
}

#[test]
fn key_hover_ignores_a_non_array_examples() {
    assert_eq!(key_hover_for(r#"{ "type": "integer", "examples": 80 }"#), None);
}

#[test]
fn key_hover_ignores_a_deprecated_that_is_not_true() {
    for deprecated in ["false", "\"yes\"", "1"] {
        assert_eq!(key_hover_for(&format!(r#"{{ "type": "integer", "deprecated": {deprecated} }}"#)), None);
    }
}

#[test]
fn key_hover_orders_values_before_access() {
    let content = key_hover_for(
        r#"{ "type": "integer", "description": "The port.", "default": 8080, "examples": [80], "readOnly": true, "deprecated": true }"#,
    )
    .unwrap();
    assert_eq!(content, "> **Deprecated**\n\nThe port.\n\n- Default: `8080`\n- Examples: `80`\n- Read-only");
}

#[test]
fn key_hover_renders_a_two_sided_range() {
    assert_eq!(key_hover_for(r#"{ "type": "integer", "minimum": 1, "maximum": 10 }"#).unwrap(), "- Range: `>= 1`, `<= 10`");
}

#[test]
fn key_hover_renders_a_one_sided_range() {
    assert_eq!(key_hover_for(r#"{ "type": "integer", "minimum": 1 }"#).unwrap(), "- Range: `>= 1`");
    assert_eq!(key_hover_for(r#"{ "type": "number", "maximum": 2.5 }"#).unwrap(), "- Range: `<= 2.5`");
}

#[test]
fn key_hover_renders_numeric_exclusive_bounds() {
    assert_eq!(
        key_hover_for(r#"{ "type": "integer", "exclusiveMinimum": 0, "exclusiveMaximum": 10 }"#).unwrap(),
        "- Range: `> 0`, `< 10`"
    );
    assert_eq!(
        key_hover_for(r#"{ "type": "integer", "exclusiveMinimum": 5, "exclusiveMaximum": 5 }"#).unwrap(),
        "- Range: `> 5`, `< 5`"
    );
}

#[test]
fn key_hover_honors_the_draft_4_boolean_exclusive_bounds() {
    assert_eq!(key_hover_for(r#"{ "type": "integer", "minimum": 1, "exclusiveMinimum": true }"#).unwrap(), "- Range: `> 1`");
    assert_eq!(key_hover_for(r#"{ "type": "integer", "maximum": 10, "exclusiveMaximum": true }"#).unwrap(), "- Range: `< 10`");
    assert_eq!(key_hover_for(r#"{ "type": "integer", "minimum": 1, "exclusiveMinimum": false }"#).unwrap(), "- Range: `>= 1`");
}

#[test]
fn key_hover_ignores_a_boolean_exclusive_bound_with_no_neighbour() {
    assert_eq!(key_hover_for(r#"{ "type": "integer", "exclusiveMinimum": true }"#), None);
}

#[test]
fn key_hover_renders_every_bound_written_on_one_side() {
    assert_eq!(key_hover_for(r#"{ "type": "integer", "minimum": 5, "exclusiveMinimum": 0 }"#).unwrap(), "- Range: `>= 5`, `> 0`");
}

#[test]
fn key_hover_collapses_equal_inclusive_bounds() {
    assert_eq!(key_hover_for(r#"{ "type": "integer", "minimum": 5, "maximum": 5 }"#).unwrap(), "- Range: `5`");
}

#[test]
fn key_hover_does_not_collapse_an_integer_against_a_float() {
    assert_eq!(key_hover_for(r#"{ "type": "number", "minimum": 40, "maximum": 40.0 }"#).unwrap(), "- Range: `>= 40`, `<= 40.0`");
}

#[test]
fn key_hover_renders_multiple_of() {
    assert_eq!(key_hover_for(r#"{ "type": "integer", "multipleOf": 5 }"#).unwrap(), "- Multiple of: `5`");
}

#[test]
fn key_hover_ignores_numeric_keywords_of_the_wrong_shape() {
    for property in [
        r#"{ "type": "integer", "minimum": "1" }"#,
        r#"{ "type": "integer", "multipleOf": "5" }"#,
        r#"{ "type": "integer", "exclusiveMinimum": "0" }"#,
    ] {
        assert_eq!(key_hover_for(property), None, "{property}");
    }
}

#[test]
fn key_hover_drops_numeric_keywords_the_declared_type_makes_dead() {
    for property in [
        r#"{ "type": "string", "minimum": 1 }"#,
        r#"{ "type": "string", "multipleOf": 5 }"#,
        r#"{ "type": "array", "maximum": 10 }"#,
    ] {
        assert_eq!(key_hover_for(property), None, "{property}");
    }
}

#[test]
fn key_hover_renders_numeric_constraints_for_an_untyped_schema() {
    assert_eq!(key_hover_for(r#"{ "minimum": 1 }"#).unwrap(), "- Range: `>= 1`");
}

#[test]
fn key_hover_renders_numeric_constraints_for_a_type_union() {
    assert_eq!(key_hover_for(r#"{ "type": ["integer", "null"], "minimum": 1 }"#).unwrap(), "- Range: `>= 1`");
}

#[test]
fn key_hover_orders_constraints_between_values_and_access() {
    let content = key_hover_for(
        r#"{ "type": "integer", "description": "The port.", "default": 8080, "minimum": 1, "maximum": 65535, "readOnly": true }"#,
    )
    .unwrap();
    assert_eq!(content, "The port.\n\n- Default: `8080`\n- Range: `>= 1`, `<= 65535`\n- Read-only");
}

#[test]
fn key_hover_renders_a_string_length() {
    assert_eq!(key_hover_for(r#"{ "type": "string", "minLength": 1, "maxLength": 128 }"#).unwrap(), "- Length: `>= 1`, `<= 128`");
    assert_eq!(key_hover_for(r#"{ "type": "string", "maxLength": 128 }"#).unwrap(), "- Length: `<= 128`");
}

#[test]
fn key_hover_collapses_a_fixed_string_length() {
    assert_eq!(key_hover_for(r#"{ "type": "string", "minLength": 40, "maxLength": 40 }"#).unwrap(), "- Length: `40`");
}

#[test]
fn key_hover_renders_a_pattern() {
    assert_eq!(key_hover_for(r#"{ "type": "string", "pattern": "^v\\d+$" }"#).unwrap(), r"- Pattern: `^v\d+$`");
}

#[test]
fn key_hover_fences_a_pattern_containing_backticks() {
    assert_eq!(key_hover_for(r#"{ "type": "string", "pattern": "a`b" }"#).unwrap(), "- Pattern: ``a`b``");
    assert_eq!(key_hover_for(r#"{ "type": "string", "pattern": "`x" }"#).unwrap(), "- Pattern: `` `x ``");
}

#[test]
fn key_hover_renders_a_format_whether_or_not_taplo_enforces_it() {
    assert_eq!(key_hover_for(r#"{ "type": "string", "format": "semver" }"#).unwrap(), "- Format: `semver`");
    assert_eq!(key_hover_for(r#"{ "type": "string", "format": "uri-template" }"#).unwrap(), "- Format: `uri-template`");
}

#[test]
fn key_hover_renders_content_annotations() {
    assert_eq!(
        key_hover_for(r#"{ "type": "string", "contentMediaType": "application/json", "contentEncoding": "base64" }"#).unwrap(),
        "- Media type: `application/json`\n- Encoding: `base64`"
    );
}

#[test]
fn key_hover_ignores_string_keywords_of_the_wrong_shape() {
    for property in [
        r#"{ "type": "string", "pattern": 12 }"#,
        r#"{ "type": "string", "format": 12 }"#,
        r#"{ "type": "string", "pattern": "" }"#,
        r#"{ "type": "string", "format": "" }"#,
        r#"{ "type": "string", "contentMediaType": "" }"#,
        r#"{ "type": "string", "contentEncoding": "" }"#,
        r#"{ "type": "string", "minLength": "1" }"#,
    ] {
        assert_eq!(key_hover_for(property), None, "{property}");
    }
}

#[test]
fn key_hover_drops_string_keywords_the_declared_type_makes_dead() {
    for property in [
        r#"{ "type": "integer", "minLength": 5 }"#,
        r#"{ "type": "integer", "pattern": "^a$" }"#,
        r#"{ "type": "integer", "format": "email" }"#,
        r#"{ "type": "integer", "contentEncoding": "base64" }"#,
    ] {
        assert_eq!(key_hover_for(property), None, "{property}");
    }
}

#[test]
fn key_hover_renders_string_constraints_for_a_type_union() {
    assert_eq!(key_hover_for(r#"{ "type": ["string", "null"], "minLength": 1 }"#).unwrap(), "- Length: `>= 1`");
}

#[test]
fn key_hover_renders_a_documented_string_key_as_five_bullets() {
    let content = key_hover_for(
        r#"{
            "type": "string",
            "description": "The image tag to deploy.",
            "default": "latest",
            "examples": ["v1.2.3", "latest"],
            "minLength": 1,
            "maxLength": 128,
            "pattern": "^[\\w.-]+$",
            "format": "semver"
        }"#,
    )
    .unwrap();
    assert_eq!(
        content,
        [
            "The image tag to deploy.\n",
            "\n",
            "- Default: `\"latest\"`\n",
            "- Examples: `\"v1.2.3\"`, `\"latest\"`\n",
            "- Length: `>= 1`, `<= 128`\n",
            r"- Pattern: `^[\w.-]+$`",
            "\n",
            "- Format: `semver`",
        ]
        .concat()
    );
}

#[test]
fn key_hover_renders_array_constraints() {
    assert_eq!(
        key_hover_for(r#"{ "type": "array", "minItems": 1, "maxItems": 3, "uniqueItems": true }"#).unwrap(),
        "- Items: `>= 1`, `<= 3`\n- Unique items"
    );
}

#[test]
fn key_hover_ignores_a_unique_items_that_is_not_true() {
    for unique in ["false", "\"yes\"", "1"] {
        assert_eq!(key_hover_for(&format!(r#"{{ "type": "array", "uniqueItems": {unique} }}"#)), None);
    }
}

#[test]
fn key_hover_renders_object_constraints() {
    assert_eq!(
        key_hover_for(r#"{ "type": "object", "minProperties": 1, "maxProperties": 5 }"#).unwrap(),
        "- Properties: `>= 1`, `<= 5`"
    );
}

#[test]
fn key_hover_drops_container_keywords_the_declared_type_makes_dead() {
    for property in [
        r#"{ "type": "integer", "minItems": 5 }"#,
        r#"{ "type": "integer", "uniqueItems": true }"#,
        r#"{ "type": "string", "minProperties": 5 }"#,
        r#"{ "type": "object", "minItems": 1 }"#,
    ] {
        assert_eq!(key_hover_for(property), None, "{property}");
    }
}

#[test]
fn key_hover_renders_every_constraint_an_untyped_schema_writes() {
    let content = key_hover_for(
        r#"{
            "minimum": 1,
            "multipleOf": 2,
            "minLength": 1,
            "pattern": "^a$",
            "format": "email",
            "contentMediaType": "text/plain",
            "contentEncoding": "base64",
            "minItems": 1,
            "uniqueItems": true,
            "minProperties": 1
        }"#,
    )
    .unwrap();
    assert_eq!(
        content,
        [
            "- Range: `>= 1`\n",
            "- Multiple of: `2`\n",
            "- Length: `>= 1`\n",
            "- Pattern: `^a$`\n",
            "- Format: `email`\n",
            "- Media type: `text/plain`\n",
            "- Encoding: `base64`\n",
            "- Items: `>= 1`\n",
            "- Unique items\n",
            "- Properties: `>= 1`",
        ]
        .concat()
    );
}

#[test]
fn hover_reads_the_branch_the_document_selects() {
    let schema = r#"{
        "type": "object",
        "properties": { "kind": { "type": "string" } },
        "if": { "properties": { "kind": { "const": "docker" } }, "required": ["kind"] },
        "then": { "properties": { "image": { "description": "the image to pull" } } },
        "else": { "properties": { "image": { "description": "the binary to run" } } }
    }"#;
    let document = r#"{ "kind": "docker", "image": "nginx" }"#;
    assert_eq!(hover_over_key(schema, document, vec![key("image")]).as_deref(), Some("the image to pull"));
}

#[test]
fn renders_a_prohibition_as_a_labelled_block() {
    let schema = r#"{ "type": "object", "properties": { "tag": { "type": "string", "not": { "type": "string", "pattern": "^latest$" } } } }"#;
    assert_eq!(
        hover_over_key(schema, r#"{ "tag": "v1" }"#, vec![key("tag")]).as_deref(),
        Some("- Must not match\n  - Type: `string`\n  - Pattern: `^latest$`")
    );
}

#[test]
fn renders_key_names_and_contains_as_labelled_blocks() {
    let schema = r#"{
        "type": "object",
        "properties": {
            "env": { "type": "object", "minProperties": 1, "propertyNames": { "pattern": "^[A-Z_]+$" } },
            "tags": { "type": "array", "contains": { "const": "release" } }
        }
    }"#;
    assert_eq!(
        hover_over_key(schema, r#"{ "env": {} }"#, vec![key("env")]).as_deref(),
        Some("- Properties: `>= 1`\n- Key names\n  - Pattern: `^[A-Z_]+$`")
    );
    assert_eq!(
        hover_over_key(schema, r#"{ "tags": [] }"#, vec![key("tags")]).as_deref(),
        Some("- Contains\n  - Const: `\"release\"`")
    );
}

#[test]
fn a_subschema_with_nothing_to_show_produces_no_block() {
    let cases = [
        r#"{ "not": {} }"#,
        r#"{ "not": { "properties": { "a": { "const": 1 } }, "required": ["a"] } }"#,
        r#"{ "not": { "dependentRequired": { "a": ["b"] }, "required": ["a"] } }"#,
    ];
    for case in cases {
        let mut property: serde_json::Value = serde_json::from_str(case).unwrap();
        property["type"] = serde_json::Value::String("string".to_owned());
        let schema = format!(r#"{{ "type": "object", "properties": {{ "tag": {property} }} }}"#);
        assert_eq!(hover_over_key(&schema, r#"{ "tag": "v1" }"#, vec![key("tag")]), None, "case {case}");
    }
}

#[test]
fn a_prohibition_states_what_a_subschema_requires() {
    let schema = r#"{ "type": "object", "properties": { "mode": { "not": { "enum": ["debug", "trace"] } } } }"#;
    assert_eq!(
        hover_over_key(schema, r#"{ "mode": "fast" }"#, vec![key("mode")]).as_deref(),
        Some("- Must not match\n  - One of: `\"debug\"`, `\"trace\"`")
    );
}

#[test]
fn key_links_come_from_the_branch_the_document_selects() {
    let schema = r#"{
        "type": "object",
        "properties": {
            "server": {
                "type": "object",
                "properties": { "kind": { "type": "string" } },
                "if": { "properties": { "kind": { "const": "docker" } }, "required": ["kind"] },
                "then": { "properties": { "image": { "x-taplo": { "links": { "key": "https://example.com/image" } } } } },
                "else": { "properties": { "image": { "x-taplo": { "links": { "key": "https://example.com/binary" } } } } }
            }
        }
    }"#;
    let document = r#"{ "server": { "kind": "docker", "image": "nginx" } }"#;
    let targets: Vec<String> = schemas_at(schema, document, vec![key("server"), key("image")])
        .iter()
        .filter_map(schema_ext_of)
        .filter_map(|ext| ext.links.and_then(|links| links.key))
        .collect();
    assert_eq!(targets, ["https://example.com/image"]);
}
