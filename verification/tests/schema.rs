use taplo_schema::json::{JsonNumber, JsonValue};
use taplo_schema::pointer::{fragment_target, parse_index, pointer_target, unescape_token, FragmentTarget};
use taplo_schema::schema::{
    absolute_refs, applicable_conditionals, branches_evaluated, compose_members, composable,
    declared_draft, detached_condition, index_subschemas, instance_at, item_schema, key_subschemas,
    merged_all_of, merged_over, needs_condition, offers_itself, rebase, sibling_overlay,
    DeclaredDraft, SchemaDraft, KeyOrIndex,
};
use taplo_schema::urls::reference_url;

/// A `JsonValue` from JSON text, keys in `serde_json`'s order.
fn j(text: &str) -> JsonValue {
    from_serde(&serde_json::from_str(text).unwrap())
}

fn from_serde(v: &serde_json::Value) -> JsonValue {
    match v {
        serde_json::Value::Null => JsonValue::Null,
        serde_json::Value::Bool(b) => JsonValue::Bool(*b),
        serde_json::Value::Number(n) => JsonValue::Number(if let Some(u) = n.as_u64() {
            JsonNumber::PosInt(u)
        } else if let Some(i) = n.as_i64() {
            JsonNumber::NegInt(i)
        } else {
            JsonNumber::Float { text: n.to_string(), zero: n.as_f64() == Some(0.0) }
        }),
        serde_json::Value::String(s) => JsonValue::String(s.clone()),
        serde_json::Value::Array(items) => JsonValue::Array(items.iter().map(from_serde).collect()),
        serde_json::Value::Object(map) => JsonValue::Object(
            map.iter().map(|(k, v)| (k.clone(), from_serde(v))).collect(),
        ),
    }
}

/// Back to `serde_json`, whose maps compare regardless of entry order.
fn to_serde(v: &JsonValue) -> serde_json::Value {
    match v {
        JsonValue::Null => serde_json::Value::Null,
        JsonValue::Bool(b) => serde_json::Value::Bool(*b),
        JsonValue::Number(n) => serde_json::from_str(&n.to_text()).unwrap(),
        JsonValue::String(s) => serde_json::Value::String(s.clone()),
        JsonValue::Array(items) => serde_json::Value::Array(items.iter().map(to_serde).collect()),
        JsonValue::Object(entries) => serde_json::Value::Object(
            entries.iter().map(|(k, v)| (k.clone(), to_serde(v))).collect(),
        ),
    }
}

fn s(text: &str) -> serde_json::Value {
    serde_json::from_str(text).unwrap()
}

#[test]
fn declared_draft_classifies_every_meta_schema_uri() {
    let classify = |declared: &str| {
        declared_draft(&JsonValue::Object(vec![(
            "$schema".to_owned(),
            JsonValue::String(declared.to_owned()),
        )]))
    };

    assert_eq!(classify("http://json-schema.org/draft-07/schema#"), DeclaredDraft::Supported(SchemaDraft::Draft7));
    assert_eq!(classify("https://json-schema.org/draft-07/schema"), DeclaredDraft::Supported(SchemaDraft::Draft7));
    assert_eq!(classify("http://json-schema.org/draft-04/schema#"), DeclaredDraft::Supported(SchemaDraft::Draft4));
    assert_eq!(classify("http://json-schema.org/draft-06/schema#"), DeclaredDraft::Supported(SchemaDraft::Draft6));
    assert_eq!(
        classify("https://json-schema.org/draft/2019-09/schema"),
        DeclaredDraft::Supported(SchemaDraft::Draft201909)
    );
    assert_eq!(
        classify("https://json-schema.org/draft/2020-12/schema"),
        DeclaredDraft::Supported(SchemaDraft::Draft202012)
    );

    assert_eq!(
        classify("http://json-schema.org/draft-03/schema#"),
        DeclaredDraft::Unsupported("http://json-schema.org/draft-03/schema".to_owned())
    );
    assert_eq!(
        classify("https://json-schema.org/draft/next/schema"),
        DeclaredDraft::Unsupported("https://json-schema.org/draft/next/schema".to_owned())
    );
    assert_eq!(classify("https://example.com/my-meta-schema.json"), DeclaredDraft::Unrecognized);
    assert_eq!(classify("not a url"), DeclaredDraft::Unrecognized);
    assert_eq!(declared_draft(&j("{}")), DeclaredDraft::Unrecognized);
    assert_eq!(declared_draft(&j(r#"{ "$schema": 7 }"#)), DeclaredDraft::Unrecognized);
}

#[test]
fn a_relative_reference_under_an_https_base_joins_to_https() {
    assert_eq!(
        reference_url("https://example.com/schemas/root.json", "common.json#/definitions/port")
            .unwrap(),
        "https://example.com/schemas/common.json#/definitions/port"
    );
}

#[test]
fn reference_url_resolves_fragments_and_absolute_urls() {
    let base = "https://example.com/schemas/root.json";
    assert_eq!(reference_url(base, "#/definitions/a").unwrap(), "https://example.com/schemas/root.json#/definitions/a");
    assert_eq!(reference_url(base, "http://other.org/x.json").unwrap(), "http://other.org/x.json");
    assert_eq!(reference_url("not a base", "x.json"), None);
}

#[test]
fn sibling_overlay_keeps_only_what_describes_the_instance() {
    let overlay = sibling_overlay(&j(r##"{ "$ref": "#/a", "$id": "x", "description": "d", "definitions": {} }"##));
    assert_eq!(to_serde(&overlay.unwrap()), s(r#"{ "description": "d" }"#));
    assert!(sibling_overlay(&j(r##"{ "$ref": "#/a", "$defs": { "a": {} }, "$schema": "s", "$comment": "c", "$anchor": "n" }"##)).is_none());
    assert!(sibling_overlay(&j("3")).is_none());
}

#[test]
fn merged_over_overlays_annotations_and_unions_required_keys() {
    let base = j(r#"{ "type": "object", "required": ["a", "b"], "properties": { "a": { "type": "string", "description": "x" } }, "default": { "a": "1" } }"#);
    let overlay = j(r#"{ "required": ["b", "c"], "properties": { "a": { "description": "y" }, "d": {} }, "default": { "b": "2" }, "title": "T" }"#);
    let merged = merged_over(&base, &overlay);
    assert_eq!(
        to_serde(&merged),
        s(r#"{
            "type": "object",
            "required": ["a", "b", "c"],
            "properties": { "a": { "type": "string", "description": "y" }, "d": {} },
            "default": { "b": "2" },
            "title": "T"
        }"#)
    );
}

#[test]
fn merged_over_replaces_anything_that_is_not_two_objects() {
    assert_eq!(to_serde(&merged_over(&j("[1]"), &j(r#"{ "a": 1 }"#))), s(r#"{ "a": 1 }"#));
    assert_eq!(to_serde(&merged_over(&j(r#"{ "a": 1 }"#), &j("2"))), s("2"));
    assert_eq!(to_serde(&merged_over(&j(r#"{ "const": { "a": 1 } }"#), &j(r#"{ "const": { "b": 2 } }"#))), s(r#"{ "const": { "b": 2 } }"#));
}

#[test]
fn merged_all_of_narrows_enums_and_merges_shared_properties() {
    let base = j(r#"{ "enum": ["a", "b", "c"], "properties": { "p": { "required": ["x"] }, "q": {} } }"#);
    let overlay = j(r#"{ "enum": ["c", "a", "z"], "properties": { "p": { "required": ["y"] } } }"#);
    assert_eq!(
        to_serde(&merged_all_of(&base, &overlay)),
        s(r#"{ "enum": ["a", "c"], "properties": { "p": { "required": ["x", "y"] }, "q": {} } }"#)
    );
}

#[test]
fn merged_all_of_merges_nested_definitions() {
    let base = j(r#"{ "$defs": { "n": { "enum": [1, 2] } } }"#);
    let overlay = j(r#"{ "$defs": { "n": { "enum": [2, 3] } } }"#);
    assert_eq!(to_serde(&merged_all_of(&base, &overlay)), s(r#"{ "$defs": { "n": { "enum": [2] } } }"#));
}

#[test]
fn rebase_resolves_the_id_without_its_fragment() {
    let base = "https://example.com/schemas/root.json";
    assert_eq!(rebase(base, &j(r#"{ "$id": "defs/x.json#frag" }"#)).unwrap(), "https://example.com/schemas/defs/x.json");
    assert_eq!(rebase(base, &j(r#"{ "id": "defs/x.json" }"#)), None);
    assert_eq!(rebase(base, &j(r#"{ "$id": 3 }"#)), None);
}

#[test]
fn absolute_refs_joins_references_and_leaves_instance_data() {
    let schema = j(r##"{
        "$ref": "#/definitions/a",
        "properties": { "p": { "$ref": "other.json" } },
        "default": { "$ref": "keep" },
        "definitions": { "n": { "$id": "nested/", "items": { "$ref": "leaf.json" } }, "m": { "$id": "#anchor" } }
    }"##);
    let absolute = absolute_refs(&schema, "https://example.com/root.json");
    assert_eq!(
        to_serde(&absolute),
        s(r##"{
            "$ref": "https://example.com/root.json#/definitions/a",
            "properties": { "p": { "$ref": "https://example.com/other.json" } },
            "default": { "$ref": "keep" },
            "definitions": {
                "n": { "$id": "https://example.com/nested/", "items": { "$ref": "https://example.com/nested/leaf.json" } },
                "m": { "$id": "#anchor" }
            }
        }"##)
    );
}

#[test]
fn instance_at_walks_keys_and_positions() {
    let value = j(r#"{ "a": { "b": [10, { "c": true }] } }"#);
    let path = vec![
        KeyOrIndex::Key("a".into()),
        KeyOrIndex::Key("b".into()),
        KeyOrIndex::Index(1),
        KeyOrIndex::Key("c".into()),
    ];
    assert_eq!(to_serde(instance_at(&value, &path)), s("true"));
    let missing = vec![KeyOrIndex::Key("a".into()), KeyOrIndex::Index(0)];
    assert_eq!(to_serde(instance_at(&value, &missing)), s("null"));
    assert_eq!(to_serde(instance_at(&value, &vec![])), to_serde(&value));
}

#[test]
fn item_schema_partitions_the_array() {
    let schema = j(r#"{ "prefixItems": [{ "title": "p0" }], "items": { "title": "rest" } }"#);
    assert_eq!(to_serde(item_schema(&schema, 0)), s(r#"{ "title": "p0" }"#));
    assert_eq!(to_serde(item_schema(&schema, 3)), s(r#"{ "title": "rest" }"#));
    let tuple = j(r#"{ "items": [{ "title": "t0" }], "additionalItems": { "title": "more" } }"#);
    assert_eq!(to_serde(item_schema(&tuple, 0)), s(r#"{ "title": "t0" }"#));
    assert_eq!(to_serde(item_schema(&tuple, 1)), s(r#"{ "title": "more" }"#));
    assert_eq!(to_serde(item_schema(&j("{}"), 1)), s("null"));
}

#[test]
fn one_of_counts_only_when_a_single_branch_may_hold() {
    assert!(branches_evaluated(true, &vec![true, false], &vec![Some(true), Some(true)]));
    assert!(!branches_evaluated(false, &vec![true, false], &vec![Some(true), None]));
    assert!(branches_evaluated(false, &vec![true, false], &vec![Some(true), Some(false)]));
    assert!(!branches_evaluated(true, &vec![true, false], &vec![Some(false), Some(true)]));
    assert!(!branches_evaluated(true, &vec![false, false], &vec![None, None]));
}

#[test]
fn key_subschemas_follow_properties_patterns_and_unevaluated() {
    let schema = j(r#"{
        "properties": { "name": { "title": "n" } },
        "patternProperties": { "^x-": { "title": "ext" }, "[": { "title": "broken" } },
        "unevaluatedProperties": { "title": "u" }
    }"#);
    let (named, evaluated) = key_subschemas(&schema, "name", false);
    assert!(evaluated);
    assert_eq!(named.iter().map(|v| to_serde(v)).collect::<Vec<_>>(), vec![s("null"), s(r#"{ "title": "n" }"#), s("null")]);

    let (ext, evaluated) = key_subschemas(&schema, "x-tool", false);
    assert!(evaluated);
    assert_eq!(to_serde(ext[3]), s(r#"{ "title": "ext" }"#));
    assert_eq!(ext.len(), 4);

    let (other, evaluated) = key_subschemas(&schema, "other", false);
    assert!(!evaluated);
    assert_eq!(to_serde(other[3]), s(r#"{ "title": "u" }"#));

    let (_, evaluated) = key_subschemas(&schema, "other", true);
    assert!(evaluated);
}

#[test]
fn index_subschemas_skip_positions_covered_by_contains() {
    let schema = j(r#"{ "contains": { "type": "integer" }, "unevaluatedItems": { "title": "tail" } }"#);
    let (covered, evaluated) = index_subschemas(&schema, 0, false, Some(true));
    assert!(evaluated);
    assert_eq!(covered.len(), 1);
    let (tail, evaluated) = index_subschemas(&schema, 1, false, Some(false));
    assert!(evaluated);
    assert_eq!(to_serde(tail[1]), s(r#"{ "title": "tail" }"#));
}

#[test]
fn conditionals_follow_the_decided_branch_and_present_dependencies() {
    let schema = j(r#"{
        "if": { "properties": { "a": { "const": 1 } } },
        "then": { "title": "then" },
        "else": { "title": "else" },
        "dependentSchemas": { "a": { "title": "dep-a" }, "b": { "title": "dep-b" } },
        "dependencies": { "c": ["a"] }
    }"#);
    assert!(needs_condition(&schema));
    let instance = j(r#"{ "a": 1 }"#);
    let titles = |v: Vec<&JsonValue>| v.iter().map(|x| to_serde(x)["title"].clone()).collect::<Vec<_>>();
    assert_eq!(titles(applicable_conditionals(&schema, Some(true), &instance)), vec![s("\"then\""), s("\"dep-a\"")]);
    assert_eq!(titles(applicable_conditionals(&schema, Some(false), &instance)), vec![s("\"else\""), s("\"dep-a\"")]);
    assert_eq!(
        titles(applicable_conditionals(&schema, None, &JsonValue::Null)),
        vec![s("\"then\""), s("\"else\""), s("\"dep-a\""), s("\"dep-b\"")]
    );
    assert!(!needs_condition(&j(r#"{ "if": {} }"#)));
}

#[test]
fn detached_conditions_drop_their_id_and_inherit_a_recent_schema() {
    let root = j(r#"{ "$schema": "https://json-schema.org/draft/2020-12/schema" }"#);
    let condition = j(r##"{ "$id": "c", "$ref": "#/defs/x" }"##);
    let detached = detached_condition(&condition, "https://example.com/root.json", Some(&root));
    assert_eq!(
        to_serde(&detached),
        s(r#"{ "$ref": "https://example.com/c#/defs/x", "$schema": "https://json-schema.org/draft/2020-12/schema" }"#)
    );
    let old_root = j(r#"{ "$schema": "http://json-schema.org/draft-07/schema#" }"#);
    let detached = detached_condition(&condition, "https://example.com/root.json", Some(&old_root));
    assert_eq!(to_serde(&detached), s(r#"{ "$ref": "https://example.com/c#/defs/x" }"#));
}

#[test]
fn composition_merges_members_and_refuses_array_keywords() {
    let carrier = j(r#"{ "allOf": [{}, {}], "description": "carrier" }"#);
    assert!(composable(&carrier, 3));
    assert!(!composable(&carrier, 0));
    assert!(!composable(&j(r#"{ "allOf": [], "properties": {} }"#), 3));
    let members = vec![j(r#"{ "required": ["a"] }"#), j(r#"{ "required": ["b"], "type": "object" }"#)];
    let composed = compose_members(&members, &carrier, "https://example.com/root.json").unwrap();
    assert_eq!(to_serde(&composed), s(r#"{ "required": ["a", "b"], "type": "object", "description": "carrier" }"#));
    let with_items = vec![j(r#"{ "items": {} }"#)];
    assert!(compose_members(&with_items, &carrier, "https://example.com/root.json").is_none());
}

#[test]
fn offers_itself_unless_only_branches_describe_it() {
    assert!(offers_itself(&j("{}")));
    assert!(!offers_itself(&j(r#"{ "oneOf": [] }"#)));
    assert!(offers_itself(&j(r#"{ "anyOf": [], "properties": {} }"#)));
}

#[test]
fn fragments_name_the_document_a_pointer_or_an_anchor() {
    assert_eq!(fragment_target("https://example.com/a.json"), FragmentTarget::Whole);
    assert_eq!(fragment_target("https://example.com/a.json#"), FragmentTarget::Whole);
    assert_eq!(
        fragment_target("https://example.com/a.json#/definitions/a%20b"),
        FragmentTarget::Pointer("/definitions/a b".into())
    );
    assert_eq!(fragment_target("https://example.com/a.json#node"), FragmentTarget::Anchor("node".into()));
    assert_eq!(fragment_target("https://example.com/a.json#%FF"), FragmentTarget::Undecodable);
}

#[test]
fn pointers_unescape_tokens_and_parse_positions() {
    assert_eq!(unescape_token("a~1b~0c"), "a/b~c");
    assert_eq!(unescape_token("~01"), "~1");
    assert_eq!(parse_index("12"), Some(12));
    assert_eq!(parse_index("+3"), Some(3));
    assert_eq!(parse_index("007"), Some(7));
    assert_eq!(parse_index("-1"), None);
    assert_eq!(parse_index("+"), None);
    assert_eq!(parse_index(""), None);
    assert_eq!(parse_index("99999999999999999999999"), None);
}

#[test]
fn pointer_target_walks_and_rebases_through_ids() {
    let document = j(r#"{
        "$defs": {
            "net": { "$id": "defs/net.json", "$defs": { "port": { "type": "integer" } } },
            "a/b": { "title": "slash" },
            "list": [{ "title": "zero" }, { "title": "one" }]
        }
    }"#);
    let base = "https://example.com/root.json";
    let (port_base, port) = pointer_target(base, &document, "/$defs/net/$defs/port").unwrap();
    assert_eq!(port_base, "https://example.com/defs/net.json");
    assert_eq!(to_serde(port), s(r#"{ "type": "integer" }"#));
    let (slash_base, slash) = pointer_target(base, &document, "/$defs/a~1b").unwrap();
    assert_eq!(slash_base, base);
    assert_eq!(to_serde(slash), s(r#"{ "title": "slash" }"#));
    let (_, one) = pointer_target(base, &document, "/$defs/list/1").unwrap();
    assert_eq!(to_serde(one), s(r#"{ "title": "one" }"#));
    assert!(pointer_target(base, &document, "/$defs/list/2").is_none());
    assert!(pointer_target(base, &document, "/missing").is_none());
}

#[test]
fn merging_a_schema_over_itself_keeps_it() {
    let schema = r#"{
        "type": "object",
        "required": ["a", "b"],
        "properties": { "a": { "type": "string", "required": ["x"] }, "b": { "default": 1 } },
        "const": { "k": 1 },
        "enum": [1, 2]
    }"#;
    assert_eq!(to_serde(&merged_over(&j(schema), &j(schema))), s(schema));
}

#[test]
fn the_empty_object_is_an_identity_of_merging() {
    let schema = r#"{ "type": "integer", "required": ["a"], "properties": { "a": {} } }"#;
    assert_eq!(to_serde(&merged_over(&j(schema), &j("{}"))), s(schema));
    assert_eq!(to_serde(&merged_over(&j("{}"), &j(schema))), s(schema));
}
