use taplo_schema::completion::{add_value_completions, header_item, is_table_schema, new_entry_item, CompletionItem};
use taplo_schema::json::{JsonNumber, JsonValue};
use taplo_schema::schema::KeyOrIndex;
use taplo_schema::traversal::{possible_schemas_from, Knowledge};

const SCHEMA_URL: &str = "file:///taplo-test/schema.json";

/// How many keys deep completion looks below the table in hand.
const MAX_KEYS: usize = 5;

fn j(text: &str) -> JsonValue {
    convert(&serde_json::from_str(text).unwrap())
}

fn convert(v: &serde_json::Value) -> JsonValue {
    match v {
        serde_json::Value::Null => JsonValue::Null,
        serde_json::Value::Bool(b) => JsonValue::Bool(*b),
        serde_json::Value::Number(n) => JsonValue::Number(if let Some(u) = n.as_u64() {
            JsonNumber::PosInt(u)
        } else if let Some(i) = n.as_i64() {
            JsonNumber::NegInt(i)
        } else {
            JsonNumber::Float { text: n.to_string(), zero: n.as_f64() == Some(0.0) }
        }),
        serde_json::Value::String(s) => JsonValue::String(s.clone()),
        serde_json::Value::Array(items) => JsonValue::Array(items.iter().map(convert).collect()),
        serde_json::Value::Object(map) => JsonValue::Object(
            map.iter().map(|(k, v)| (k.clone(), convert(v))).collect(),
        ),
    }
}

/// TOML inline literals; a table drops a member that has none.
fn toml(v: &JsonValue, single_quote: bool) -> Option<String> {
    match v {
        JsonValue::Null => None,
        JsonValue::Bool(b) => Some(b.to_string()),
        JsonValue::Number(n) => Some(n.to_text()),
        JsonValue::String(s) => Some(if single_quote { format!("'{s}'") } else { format!("\"{s}\"") }),
        JsonValue::Array(items) => {
            let parts: Option<Vec<String>> = items.iter().map(|i| toml(i, single_quote)).collect();
            Some(format!("[ {} ]", parts?.join(", ")))
        }
        JsonValue::Object(entries) => {
            let parts: Vec<String> = entries
                .iter()
                .filter_map(|(k, v)| toml(v, single_quote).map(|t| format!("{k} = {t}")))
                .collect();
            Some(format!("{{ {} }}", parts.join(", ")))
        }
    }
}

fn key(k: &str) -> KeyOrIndex {
    KeyOrIndex::Key(k.to_owned())
}

fn path_text(p: &[KeyOrIndex]) -> String {
    p.iter()
        .map(|s| match s {
            KeyOrIndex::Key(k) => k.clone(),
            KeyOrIndex::Index(i) => i.to_string(),
        })
        .collect::<Vec<_>>()
        .join(".")
}

/// The schemas of what may stand at and below `path` of `document`.
fn possible(schema: &str, document: &str, path: Vec<KeyOrIndex>, depth: usize) -> Vec<(String, String, JsonValue)> {
    let k = Knowledge { documents: vec![(SCHEMA_URL.to_owned(), Some((SCHEMA_URL.to_owned(), j(schema))))] };
    match possible_schemas_from(&k, SCHEMA_URL, &j(document), &path, depth) {
        Ok(found) => found.into_iter().map(|(full, relative, s)| (path_text(&full), path_text(&relative), s)).collect(),
        Err(h) => panic!("failed to collect schemas: {h:?}"),
    }
}

/// What completing the value of the entry at `path` offers.
fn value_items(schema: &str, document: &str, path: Vec<KeyOrIndex>) -> Vec<CompletionItem> {
    let mut completions = Vec::new();
    for (_, _, s) in possible(schema, document, path, MAX_KEYS + 1) {
        add_value_completions(&s, None, &mut completions, false, &toml);
    }
    completions
}

/// What completing a new entry on an empty line of the root table offers:
/// every key below it that the document does not hold yet.
fn entry_items(schema: &str, document: &str) -> Vec<CompletionItem> {
    let existing: serde_json::Value = serde_json::from_str(document).unwrap();
    possible(schema, document, vec![], MAX_KEYS + 1)
        .into_iter()
        .filter(|(full, _, _)| !full.is_empty() && existing.pointer(&format!("/{}", full.replace('.', "/"))).is_none())
        .map(|(_, relative, s)| new_entry_item(&relative, &s, &toml))
        .collect()
}

fn labels(items: &[CompletionItem]) -> Vec<&str> {
    items.iter().map(|item| item.label.as_str()).collect()
}

#[test]
fn value_completion_skips_examples_beside_an_enum() {
    let schema = r#"{ "type": "object", "properties": { "mode": { "enum": ["fast", "slow"], "examples": ["other"] } } }"#;
    assert_eq!(labels(&value_items(schema, "{}", vec![key("mode")])), ["\"fast\"", "\"slow\""]);
}

#[test]
fn value_completion_skips_examples_beside_a_const() {
    let schema = r#"{ "type": "object", "properties": { "mode": { "const": "only", "examples": ["other"] } } }"#;
    assert_eq!(labels(&value_items(schema, "{}", vec![key("mode")])), ["\"only\""]);
}

#[test]
fn a_deprecated_key_is_tagged_in_entry_completion() {
    let schema = r#"{ "type": "object", "properties": {
        "old": { "type": "integer", "deprecated": true },
        "new": { "type": "integer" }
    } }"#;
    let items = entry_items(schema, "{}");
    assert!(items.iter().find(|item| item.label == "old").unwrap().deprecated);
    assert!(!items.iter().find(|item| item.label == "new").unwrap().deprecated);
}

#[test]
fn a_deprecated_table_is_tagged_in_header_completion() {
    let schema = r#"{ "type": "object", "properties": { "old": { "type": "object", "deprecated": true, "properties": {} } } }"#;
    let items: Vec<CompletionItem> = possible(schema, "{}", vec![], 1 + MAX_KEYS + 1)
        .into_iter()
        .filter(|(full, _, s)| !full.is_empty() && is_table_schema(s))
        .map(|(full, _, s)| header_item(&full, None, &s))
        .collect();
    assert!(items.iter().find(|item| item.label == "old").unwrap().deprecated);
}

#[test]
fn a_deprecated_value_branch_tags_only_its_own_candidate() {
    let schema = r#"{ "type": "object", "properties": { "codec": {
        "oneOf": [{ "const": "gzip", "deprecated": true }, { "const": "zstd" }]
    } } }"#;
    let items = value_items(schema, "{}", vec![key("codec")]);
    assert!(items.iter().find(|item| item.label == "\"gzip\"").unwrap().deprecated);
    assert!(!items.iter().find(|item| item.label == "\"zstd\"").unwrap().deprecated);
}

#[test]
fn a_default_holding_a_null_renders_with_that_entry_dropped() {
    let schema = r#"{ "type": "object", "properties": { "port": { "type": "integer", "default": { "a": null } } } }"#;
    assert_eq!(labels(&value_items(schema, "{}", vec![key("port")])), ["{  }"]);
    let keys = entry_items(schema, "{}");
    assert_eq!(keys[0].insert_text.as_deref(), Some("port = ${0:{  }}"));
}

#[test]
fn key_completion_offers_only_the_selected_branch() {
    let schema = r#"{
        "type": "object",
        "properties": { "kind": { "type": "string" } },
        "if": { "properties": { "kind": { "const": "docker" } }, "required": ["kind"] },
        "then": { "properties": { "image": { "type": "string" } } },
        "else": { "properties": { "binary": { "type": "string" } } }
    }"#;
    let items = entry_items(schema, r#"{ "kind": "docker" }"#);
    assert!(labels(&items).contains(&"image"));
    assert!(!labels(&items).contains(&"binary"));
}
