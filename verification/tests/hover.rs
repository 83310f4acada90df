use taplo_schema::facts::{default_fact, schema_docs};
use taplo_schema::hover::{
    array_itself, fact_line, hover_side, key_hover_content, value_hover_content, Fact, HoverSections, HoverSide,
    NestedFacts,
};
use taplo_schema::schema::KeyOrIndex;
use taplo_schema::traversal::{schemas_at_path, Knowledge};
use taplo_schema::syntax::SyntaxKind;
use taplo_schema::json::{JsonNumber, JsonValue};
use taplo_schema::markdown::code_span;

/// A `JsonValue` from JSON text, keys in `serde_json`'s order.
fn j(text: &str) -> JsonValue {
    convert(&serde_json::from_str(text).unwrap())
}

fn convert(v: &serde_json::Value) -> JsonValue {
    match v {
        serde_json::Value::Null => JsonValue::Null,
        serde_json::Value::Bool(b) => JsonValue::Bool(*b),
        serde_json::Value::Number(n) => JsonValue::Number(if let Some(u) = n.as_u64() {
            JsonNumber::PosInt(u)
        } else if let Some(i) = n.as_i64() {
            JsonNumber::NegInt(i)
        } else {
            JsonNumber::Float { text: n.to_string(), zero: n.as_f64() == Some(0.0) }
        }),
        serde_json::Value::String(s) => JsonValue::String(s.clone()),
        serde_json::Value::Array(items) => JsonValue::Array(items.iter().map(convert).collect()),
        serde_json::Value::Object(map) => JsonValue::Object(
            map.iter().map(|(k, v)| (k.clone(), convert(v))).collect(),
        ),
    }
}

/// A TOML inline rendering of a JSON value, for the literal-rendering tests.
fn toml(v: &JsonValue) -> Option<String> {
    match v {
        JsonValue::Null => None,
        JsonValue::Bool(b) => Some(b.to_string()),
        JsonValue::Number(n) => Some(n.to_text()),
        JsonValue::String(s) => Some(format!("\"{s}\"")),
        JsonValue::Array(items) => {
            let parts: Option<Vec<String>> = items.iter().map(toml).collect();
            Some(format!("[ {} ]", parts?.join(", ")))
        }
        JsonValue::Object(entries) => {
            let parts: Option<Vec<String>> = entries
                .iter()
                .map(|(k, v)| toml(v).map(|t| format!("{k} = {t}")))
                .collect();
            Some(format!("{{ {} }}", parts?.join(", ")))
        }
    }
}

fn key_hover_for(property: &str) -> Option<String> {
    key_hover_content(&vec![j(property)], false, &toml)
}

#[test]
fn renders_defaults_as_toml_literals() {
    let cases = [
        ("8080", "8080"),
        ("\"info\"", "\"info\""),
        ("false", "false"),
        ("[1, 2]", "[ 1, 2 ]"),
        ("{ \"level\": 1 }", "{ level = 1 }"),
    ];

    for (default, expected) in cases {
        let schema = j(&format!("{{ \"default\": {default} }}"));
        let fact = default_fact(&schema, &toml).expect("no default fact");
        assert_eq!(fact.label, "Default");
        assert_eq!(fact.values, [expected]);
    }
}

#[test]
fn skips_absent_and_null_defaults() {
    assert!(default_fact(&j("{}"), &toml).is_none());
    assert!(default_fact(&j("{ \"default\": null }"), &toml).is_none());
}

#[test]
fn renders_nothing_for_empty_sections() {
    assert_eq!(HoverSections::default().render(), "");
}

#[test]
fn renders_docs_alone_without_a_list() {
    let sections = HoverSections { docs: Some("prose".into()), ..Default::default() };

    assert_eq!(sections.render(), "prose");
}

#[test]
fn renders_facts_alone_as_a_bullet_list() {
    let sections = HoverSections {
        facts: vec![
            Fact { label: "Default", values: vec!["1".into()] },
            Fact { label: "Read-only", values: Vec::new() },
        ],
        ..Default::default()
    };

    assert_eq!(sections.render(), "- Default: `1`\n- Read-only");
}

#[test]
fn renders_every_section_separated_by_blank_lines() {
    let sections = HoverSections {
        banners: vec!["> **Deprecated**".into()],
        docs: Some("prose".into()),
        facts: vec![Fact { label: "Default", values: vec!["1".into()] }],
        nested: Vec::new(),
    };

    assert_eq!(sections.render(), "> **Deprecated**\n\nprose\n\n- Default: `1`");
}

#[test]
fn code_spans_widen_past_backticks_in_the_value() {
    assert_eq!(code_span("plain"), "`plain`");
    assert_eq!(code_span("a ` b"), "``a ` b``");
    assert_eq!(code_span("a ``` b"), "````a ``` b````");
}

#[test]
fn code_spans_pad_values_that_start_or_end_with_a_backtick() {
    assert_eq!(code_span("`x"), "`` `x ``");
    assert_eq!(code_span("x`"), "`` x` ``");
}

#[test]
fn documentation_precedence_prefers_taplo_then_markdown() {
    let all_three = j(r#"{
        "x-taplo": { "docs": { "main": "taplo" } },
        "markdownDescription": "markdown",
        "description": "plain"
    }"#);
    assert_eq!(schema_docs(&all_three).as_deref(), Some("taplo"));

    let two = j(r#"{ "markdownDescription": "markdown", "description": "plain" }"#);
    assert_eq!(schema_docs(&two).as_deref(), Some("markdown"));

    let one = j(r#"{ "description": "plain" }"#);
    assert_eq!(schema_docs(&one).as_deref(), Some("plain"));

    assert_eq!(schema_docs(&j("{}")), None);
}

#[test]
fn a_non_string_markdown_description_is_ignored() {
    let schema = j(r#"{ "markdownDescription": 12, "description": "plain" }"#);
    assert_eq!(schema_docs(&schema).as_deref(), Some("plain"));
}

#[test]
fn fact_lines_fence_each_value_and_indent() {
    let fact = Fact { label: "Examples", values: vec!["80".into(), "a`b".into()] };
    assert_eq!(fact_line(&fact, "  "), "  - Examples: `80`, ``a`b``");
    let bare = Fact { label: "Read-only", values: Vec::new() };
    assert_eq!(fact_line(&bare, ""), "- Read-only");
}

#[test]
fn nested_blocks_render_beneath_the_facts() {
    let sections = HoverSections {
        facts: vec![Fact { label: "Type", values: vec!["object".into()] }],
        nested: vec![NestedFacts {
            label: "Not",
            facts: vec![Fact { label: "Type", values: vec!["string".into()] }],
        }],
        ..Default::default()
    };
    let text = sections.render();
    assert!(text.starts_with("- Type: `object`\n"));
    assert!(text.contains("Not"));
    assert!(text.contains("  - Type: `string`"));
}

#[test]
fn key_hover_renders_the_default_as_a_bullet() {
    assert_eq!(
        key_hover_for(r#"{ "type": "integer", "description": "The port.", "default": 8080 }"#)
            .as_deref(),
        Some("The port.\n\n- Default: `8080`")
    );
}

#[test]
fn key_hover_separates_schemas_with_a_rule() {
    let schema = j(r#"{
        "type": "object",
        "properties": {
            "port": {
                "anyOf": [
                    { "type": "integer", "description": "first branch" },
                    { "type": "integer", "description": "second branch" }
                ]
            }
        }
    }"#);
    let url = "file:///taplo-test/schema.json";
    let k = Knowledge { documents: vec![(url.to_owned(), Some((url.to_owned(), schema)))] };
    let found = schemas_at_path(&k, url, &j(r#"{ "port": 8080 }"#), &vec![KeyOrIndex::Key("port".to_owned())]).unwrap();
    let schemas: Vec<JsonValue> = found.into_iter().map(|(_, s)| s).collect();
    let content = key_hover_content(&schemas, false, &toml).unwrap();
    assert_eq!(content, "first branch\n\n---\n\nsecond branch");
    assert_eq!(content.matches("---").count(), 1);
}

#[test]
fn key_hover_lists_examples_skipping_non_values() {
    assert_eq!(
        key_hover_for(r#"{ "type": "integer", "examples": [80, 443] }"#).as_deref(),
        Some("- Examples: `80`, `443`")
    );
    assert_eq!(
        key_hover_for(r#"{ "type": "integer", "examples": [80, null] }"#).as_deref(),
        Some("- Examples: `80`")
    );
    assert_eq!(key_hover_for(r#"{ "type": "integer", "examples": 80 }"#), None);
}

#[test]
fn key_hover_banners_a_deprecated_key_above_the_docs() {
    assert_eq!(
        key_hover_for(r#"{ "type": "integer", "description": "The port.", "deprecated": true }"#)
            .as_deref(),
        Some("> **Deprecated**\n\nThe port.")
    );
    for deprecated in ["false", "\"yes\"", "1"] {
        assert_eq!(
            key_hover_for(&format!(r#"{{ "type": "integer", "deprecated": {deprecated} }}"#)),
            None
        );
    }
}

#[test]
fn key_hover_notes_read_only_and_write_only() {
    assert_eq!(
        key_hover_for(r#"{ "type": "integer", "readOnly": true }"#).as_deref(),
        Some("- Read-only")
    );
    assert_eq!(
        key_hover_for(r#"{ "type": "integer", "writeOnly": true }"#).as_deref(),
        Some("- Write-only")
    );
    assert_eq!(
        key_hover_for(r#"{ "type": "integer", "readOnly": true, "writeOnly": true }"#).as_deref(),
        Some("- Read-only\n- Write-only")
    );
}

#[test]
fn key_hover_orders_values_constraints_and_access() {
    let content = key_hover_for(
        r#"{
            "type": "integer",
            "description": "The port.",
            "default": 8080,
            "minimum": 1,
            "maximum": 65535,
            "readOnly": true
        }"#,
    )
    .unwrap();
    assert_eq!(content, "The port.\n\n- Default: `8080`\n- Range: `>= 1`, `<= 65535`\n- Read-only");
}

#[test]
fn key_hover_renders_ranges() {
    let cases = [
        (r#"{ "type": "integer", "minimum": 1, "maximum": 10 }"#, "- Range: `>= 1`, `<= 10`"),
        (r#"{ "type": "number", "maximum": 2.5 }"#, "- Range: `<= 2.5`"),
        (
            r#"{ "type": "integer", "exclusiveMinimum": 0, "exclusiveMaximum": 10 }"#,
            "- Range: `> 0`, `< 10`",
        ),
        (r#"{ "type": "integer", "minimum": 1, "exclusiveMinimum": true }"#, "- Range: `> 1`"),
        (r#"{ "type": "integer", "minimum": 1, "exclusiveMinimum": false }"#, "- Range: `>= 1`"),
        (r#"{ "type": "integer", "minimum": 5, "exclusiveMinimum": 0 }"#, "- Range: `>= 5`, `> 0`"),
        (r#"{ "type": "integer", "minimum": 5, "maximum": 5 }"#, "- Range: `5`"),
        (r#"{ "type": "number", "minimum": 40, "maximum": 40.0 }"#, "- Range: `>= 40`, `<= 40.0`"),
        (r#"{ "minimum": 1 }"#, "- Range: `>= 1`"),
        (r#"{ "type": ["integer", "null"], "minimum": 1 }"#, "- Range: `>= 1`"),
        (r#"{ "type": "integer", "multipleOf": 5 }"#, "- Multiple of: `5`"),
    ];
    for (property, expected) in cases {
        assert_eq!(key_hover_for(property).as_deref(), Some(expected), "{property}");
    }
}

#[test]
fn key_hover_drops_dead_and_malformed_numeric_keywords() {
    for property in [
        r#"{ "type": "integer", "exclusiveMinimum": true }"#,
        r#"{ "type": "integer", "minimum": "1" }"#,
        r#"{ "type": "integer", "multipleOf": "5" }"#,
        r#"{ "type": "string", "minimum": 1 }"#,
        r#"{ "type": "array", "maximum": 10 }"#,
    ] {
        assert_eq!(key_hover_for(property), None, "{property}");
    }
}

#[test]
fn key_hover_renders_string_lengths() {
    assert_eq!(
        key_hover_for(r#"{ "type": "string", "minLength": 1, "maxLength": 128 }"#).as_deref(),
        Some("- Length: `>= 1`, `<= 128`")
    );
    assert_eq!(
        key_hover_for(r#"{ "type": "string", "minLength": 40, "maxLength": 40 }"#).as_deref(),
        Some("- Length: `40`")
    );
}

#[test]
fn value_hover_shows_the_documented_enum_value() {
    let schema = j(r#"{
        "enum": ["a", "b"],
        "x-taplo": { "docs": { "enumValues": ["first", "second"] } }
    }"#);
    assert_eq!(
        value_hover_content(&vec![schema], &j("\"b\""), false).as_deref(),
        Some("second")
    );
}

#[test]
fn value_hover_prefers_the_markdown_description() {
    let schema = j(r#"{ "type": "integer", "markdownDescription": "**rich**", "description": "plain" }"#);
    assert_eq!(value_hover_content(&vec![schema], &j("8080"), false).as_deref(), Some("**rich**"));
}

#[test]
fn value_hover_still_falls_back_to_the_title() {
    let schema = j(r#"{ "type": "integer", "title": "Port" }"#);
    assert_eq!(value_hover_content(&vec![schema], &j("8080"), false).as_deref(), Some("Port"));
}

#[test]
fn a_hover_describes_the_key_or_value_before_the_cursor_first() {
    assert_eq!(hover_side(Some(SyntaxKind::IDENT), Some(SyntaxKind::INTEGER)), Some(HoverSide::Before));
    assert_eq!(hover_side(Some(SyntaxKind::WHITESPACE), Some(SyntaxKind::INTEGER)), Some(HoverSide::After));
    assert_eq!(hover_side(None, Some(SyntaxKind::STRING)), Some(HoverSide::After));
    assert_eq!(hover_side(Some(SyntaxKind::WHITESPACE), Some(SyntaxKind::EQ)), None);
    assert_eq!(hover_side(None, None), None);
}

#[test]
fn a_key_hover_describes_the_array_not_its_items() {
    let mut keys = vec![
        KeyOrIndex::Key("servers".to_owned()),
        KeyOrIndex::Index(0),
        KeyOrIndex::Key("ports".to_owned()),
        KeyOrIndex::Index(2),
        KeyOrIndex::Index(1),
    ];
    array_itself(&mut keys);
    assert_eq!(keys.len(), 3);
    assert!(matches!(&keys[2], KeyOrIndex::Key(k) if k == "ports"));
    let mut none = vec![KeyOrIndex::Index(0)];
    array_itself(&mut none);
    assert!(none.is_empty());
}
