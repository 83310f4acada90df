use vstd::prelude::*;

use crate::ext::{
    opt_chars, opt_strs, schema_ext_of, spec_ext, spec_ext_enum_values, spec_ext_init_keys,
    spec_ext_str, strings_ok,
};
use crate::facts::{
    is_deprecated, schema_docs, spec_flag, spec_schema_docs, string_items, collect_strings,
};
use crate::json::{
    decimal, json_height, lemma_member_height, push_decimal, spec_as_str, spec_get, spec_index, spec_str_at,
    JsonValue, ValueExt,
};
use crate::markdown::{join, join_strings, lemma_strs_push, strs};
use crate::schema::KeyOrIndex;
use crate::text::str_equals;

verus! {

/// What a completion offers.
#[derive(Clone, Copy, Debug, PartialEq, Eq, Structural)]
pub enum CompletionKind {
    Struct,
    Value,
    Variable,
}

/// A span of the document, in lines and characters.
#[derive(Clone, Copy, Debug, PartialEq, Eq, Structural)]
pub struct TextRange {
    pub start_line: u32,
    pub start_character: u32,
    pub end_line: u32,
    pub end_character: u32,
}

/// Text that replaces a span of the document.
#[derive(Debug)]
pub struct TextEdit {
    pub range: TextRange,
    pub new_text: String,
}

/// One completion candidate.
#[derive(Debug)]
pub struct CompletionItem {
    pub label: String,
    pub sort_text: Option<String>,
    pub kind: Option<CompletionKind>,
    pub detail: Option<String>,
    /// Markdown documentation.
    pub documentation: Option<String>,
    /// Whether the candidate is deprecated; a client is told both through the
    /// deprecated tag and the superseded flag.
    pub deprecated: bool,
    /// Whether the inserted text is a snippet.
    pub snippet: bool,
    pub insert_text: Option<String>,
    pub text_edit: Option<TextEdit>,
}

/// A completion item as a client sees it: label, sort text, kind, detail,
/// documentation, deprecation, snippet format, insert text and edit.
pub type ItemView = (
    Seq<char>,
    Option<Seq<char>>,
    Option<CompletionKind>,
    Option<Seq<char>>,
    Option<Seq<char>>,
    bool,
    bool,
    Option<Seq<char>>,
    Option<(TextRange, Seq<char>)>,
);

/// A completion item as a client sees it.
pub open spec fn item_view(i: CompletionItem) -> ItemView {
    (
        i.label@,
        opt_chars(i.sort_text),
        i.kind,
        opt_chars(i.detail),
        opt_chars(i.documentation),
        i.deprecated,
        i.snippet,
        opt_chars(i.insert_text),
        match i.text_edit {
            Some(e) => Some((e.range, e.new_text@)),
            None => None,
        },
    )
}

/// The views of completion items, in order.
pub open spec fn items_view(items: Seq<CompletionItem>) -> Seq<ItemView> {
    items.map_values(|i: CompletionItem| item_view(i))
}

/// A value candidate's view: labelled `label`, replacing `range` (when there
/// is one) with `new_text`.
pub open spec fn value_item(
    label: Seq<char>,
    sort_text: Option<Seq<char>>,
    kind: CompletionKind,
    detail: Option<Seq<char>>,
    documentation: Option<Seq<char>>,
    deprecated: bool,
    snippet: bool,
    new_text: Seq<char>,
    range: Option<TextRange>,
) -> ItemView {
    (
        label,
        sort_text,
        Some(kind),
        detail,
        documentation,
        deprecated,
        snippet,
        None,
        match range {
            Some(r) => Some((r, new_text)),
            None => None,
        },
    )
}

/// What a renderer of TOML literals may return for `value` in the given
/// quote style.
pub open spec fn toml_of<F: Fn(&JsonValue, bool) -> Option<String>>(
    render: F,
    value: JsonValue,
    single_quote: bool,
    out: Option<String>,
) -> bool {
    call_ensures(render, (&value, single_quote), out)
}

/// `docs`, or `fallback` without it.
pub open spec fn or_else(docs: Option<Seq<char>>, fallback: Option<Seq<char>>) -> Option<Seq<char>> {
    match docs {
        Some(d) => Some(d),
        None => fallback,
    }
}

/// The documentation an enum candidate carries: the schema's note for that
/// position, else the schema's documentation.
pub open spec fn enum_doc(schema: JsonValue, i: int) -> Option<Seq<char>> {
    let ed = spec_ext_enum_values(schema, "docs"@);
    if 0 <= i < ed.len() && ed[i] is Some {
        ed[i]
    } else {
        spec_schema_docs(schema)
    }
}

/// The enum candidates for the first `n` values with their rendered
/// literals: each rendered value in order, sorted by its position.
pub open spec fn enum_items(
    schema: JsonValue,
    values: Seq<JsonValue>,
    lits: Seq<Option<String>>,
    range: Option<TextRange>,
    n: nat,
) -> Seq<ItemView>
    decreases n,
{
    if n == 0 {
        Seq::empty()
    } else {
        let prev = enum_items(schema, values, lits, range, (n - 1) as nat);
        let i = n - 1;
        match lits[i] {
            Some(l) => prev.push(
                value_item(
                    l@,
                    Some(decimal(i as nat) + l@),
                    if values[i] is Object {
                        CompletionKind::Struct
                    } else {
                        CompletionKind::Value
                    },
                    None,
                    enum_doc(schema, i),
                    spec_flag(schema, "deprecated"@),
                    false,
                    l@,
                    range,
                ),
            ),
            None => prev,
        }
    }
}

/// The example candidates for the first `n` examples with their rendered
/// literals.
pub open spec fn example_items(
    schema: JsonValue,
    lits: Seq<Option<String>>,
    range: Option<TextRange>,
    n: nat,
) -> Seq<ItemView>
    decreases n,
{
    if n == 0 {
        Seq::empty()
    } else {
        let prev = example_items(schema, lits, range, (n - 1) as nat);
        match lits[n - 1] {
            Some(l) => prev.push(
                value_item(
                    l@,
                    None,
                    CompletionKind::Value,
                    Some("example"@),
                    spec_schema_docs(schema),
                    spec_flag(schema, "deprecated"@),
                    false,
                    l@,
                    range,
                ),
            ),
            None => prev,
        }
    }
}

/// The const candidate, when its literal rendered.
pub open spec fn const_items(schema: JsonValue, lit: Option<String>, range: Option<TextRange>) -> Seq<ItemView> {
    match lit {
        Some(l) => seq![
            value_item(
                l@,
                None,
                CompletionKind::Value,
                None,
                or_else(spec_ext_str(schema, "docs"@, "constValue"@), spec_schema_docs(schema)),
                spec_flag(schema, "deprecated"@),
                false,
                l@,
                range,
            ),
        ],
        None => Seq::empty(),
    }
}

/// The default candidate, when there is a default and its literal rendered.
pub open spec fn default_items(schema: JsonValue, lit: Option<String>, range: Option<TextRange>) -> Seq<ItemView> {
    match lit {
        Some(l) => seq![
            value_item(
                l@,
                None,
                CompletionKind::Value,
                Some("default"@),
                or_else(spec_ext_str(schema, "docs"@, "defaultValue"@), spec_schema_docs(schema)),
                spec_flag(schema, "deprecated"@),
                false,
                l@,
                range,
            ),
        ],
        None => Seq::empty(),
    }
}

/// The types whose placeholders a value may start from: the declared name,
/// the declared names of a list, or `object` when no type is declared.
pub open spec fn value_type_names(schema: JsonValue) -> Seq<Seq<char>> {
    match spec_index(schema, "type"@) {
        JsonValue::Null => seq!["object"@],
        JsonValue::String(s) => seq![s@],
        JsonValue::Array(tys) => string_items(tys@),
        _ => Seq::empty(),
    }
}

/// The placeholder candidates for one type: an empty string, the two
/// booleans, an empty array or an empty table; nothing for another type.
pub open spec fn type_items_for(schema: JsonValue, name: Seq<char>, range: Option<TextRange>) -> Seq<ItemView> {
    let sd = spec_schema_docs(schema);
    let dep = spec_flag(schema, "deprecated"@);
    if name == "string"@ {
        seq![value_item("\"\""@, None, CompletionKind::Value, None, or_else(sd, Some("string"@)), dep, true, "\"$0\""@, range)]
    } else if name == "boolean"@ {
        seq![
            value_item("true"@, None, CompletionKind::Value, None, or_else(sd, Some("true value"@)), dep, true, "true$0"@, range),
            value_item("false"@, None, CompletionKind::Value, None, or_else(sd, Some("false value"@)), dep, true, "false$0"@, range),
        ]
    } else if name == "array"@ {
        seq![value_item("[]"@, None, CompletionKind::Value, None, or_else(sd, Some("array"@)), dep, true, "[$0]"@, range)]
    } else if name == "object"@ {
        seq![value_item("{ }"@, None, CompletionKind::Value, None, or_else(sd, Some("object"@)), dep, true, "{ $0 }"@, range)]
    } else {
        Seq::empty()
    }
}

/// The placeholder candidates for the first `n` type names.
pub open spec fn type_items(schema: JsonValue, names: Seq<Seq<char>>, range: Option<TextRange>, n: nat) -> Seq<ItemView>
    decreases n,
{
    if n == 0 {
        Seq::empty()
    } else {
        type_items(schema, names, range, (n - 1) as nat) + type_items_for(schema, names[n - 1], range)
    }
}

/// `lits` is one rendering per value of `values`.
pub open spec fn renders_each<F: Fn(&JsonValue, bool) -> Option<String>>(
    render: F,
    values: Seq<JsonValue>,
    single_quote: bool,
    lits: Seq<Option<String>>,
) -> bool {
    lits.len() == values.len() && forall|i: int|
        0 <= i < values.len() ==> toml_of(render, values[i], single_quote, #[trigger] lits[i])
}


/// Whether `dl` is what the renderer gives for the default, or nothing when
/// there is no default.
pub open spec fn default_lit_ok<F: Fn(&JsonValue, bool) -> Option<String>>(
    render: F,
    schema: JsonValue,
    single_quote: bool,
    dl: Option<String>,
) -> bool {
    match spec_get(schema, "default"@) {
        Some(d) => toml_of(render, d, single_quote, dl),
        None => dl is None,
    }
}

/// Whether `lits` is what the renderer gives for each example, or nothing
/// when `examples` is not a list.
pub open spec fn examples_lits_ok<F: Fn(&JsonValue, bool) -> Option<String>>(
    render: F,
    schema: JsonValue,
    single_quote: bool,
    lits: Seq<Option<String>>,
) -> bool {
    match spec_index(schema, "examples"@) {
        JsonValue::Array(xs) => renders_each(render, xs@, single_quote, lits),
        _ => lits.len() == 0,
    }
}

/// The value candidates a schema offers: every enum value when there is an
/// enum; else the const when there is one; else the default, the examples
/// and a placeholder for each type the value may have.
pub open spec fn value_completions_rel<F: Fn(&JsonValue, bool) -> Option<String>>(
    render: F,
    schema: JsonValue,
    range: Option<TextRange>,
    single_quote: bool,
    out: Seq<ItemView>,
) -> bool {
    match spec_index(schema, "enum"@) {
        JsonValue::Array(values) => exists|lits: Seq<Option<String>>|
            #[trigger] renders_each(render, values@, single_quote, lits) && out == enum_items(
                schema,
                values@,
                lits,
                range,
                values@.len(),
            ),
        _ => match spec_get(schema, "const"@) {
            Some(c) => exists|lit: Option<String>|
                #[trigger] toml_of(render, c, single_quote, lit) && out == const_items(schema, lit, range),
            None => exists|dl: Option<String>, lits: Seq<Option<String>>|
                #![trigger default_lit_ok(render, schema, single_quote, dl), examples_lits_ok(render, schema, single_quote, lits)]
                default_lit_ok(render, schema, single_quote, dl) && examples_lits_ok(
                    render,
                    schema,
                    single_quote,
                    lits,
                ) && out == default_items(schema, dl, range) + example_items(
                    schema,
                    lits,
                    range,
                    lits.len(),
                ) + type_items(schema, value_type_names(schema), range, value_type_names(schema).len()),
        },
    }
}

proof fn lemma_items_view_push(old: Seq<CompletionItem>, x: CompletionItem)
    ensures
        items_view(old.push(x)) == items_view(old).push(item_view(x)),
{
    assert(items_view(old.push(x)) =~= items_view(old).push(item_view(x)));
}

fn clone_opt(s: &Option<String>) -> (r: Option<String>)
    ensures
        opt_chars(r) == opt_chars(*s),
{
    match s {
        Some(s) => Some(s.clone()),
        None => None,
    }
}

/// Appends a value candidate.
fn push_value_item(
    completions: &mut Vec<CompletionItem>,
    label: String,
    sort_text: Option<String>,
    kind: CompletionKind,
    detail: Option<String>,
    documentation: Option<String>,
    deprecated: bool,
    snippet: bool,
    new_text: String,
    range: Option<TextRange>,
)
    ensures
        items_view(final(completions)@) == items_view(old(completions)@).push(
            value_item(
                label@,
                opt_chars(sort_text),
                kind,
                opt_chars(detail),
                opt_chars(documentation),
                deprecated,
                snippet,
                new_text@,
                range,
            ),
        ),
{
    let text_edit = match range {
        Some(r) => Some(TextEdit { range: r, new_text }),
        None => None,
    };
    let item = CompletionItem {
        label,
        sort_text,
        kind: Some(kind),
        detail,
        documentation,
        deprecated,
        snippet,
        insert_text: None,
        text_edit,
    };
    let ghost before = completions@;
    completions.push(item);
    proof {
        lemma_items_view_push(before, item);
    }
}

/// `docs`, or `fallback` without it.
fn docs_or(docs: &Option<String>, fallback: &str) -> (r: String)
    ensures
        Some(r@) == or_else(opt_chars(*docs), Some(fallback@)),
{
    match docs {
        Some(d) => d.clone(),
        None => fallback.to_owned(),
    }
}

/// Appends the placeholder candidates for one type.
fn push_type_items(
    completions: &mut Vec<CompletionItem>,
    schema: &JsonValue,
    name: &str,
    docs: &Option<String>,
    deprecated: bool,
    range: Option<TextRange>,
)
    requires
        opt_chars(*docs) == spec_schema_docs(*schema),
        deprecated == spec_flag(*schema, "deprecated"@),
    ensures
        items_view(final(completions)@) == items_view(old(completions)@) + type_items_for(
            *schema,
            name@,
            range,
        ),
{
    if str_equals(name, "string") {
        push_value_item(completions, "\"\"".to_owned(), None, CompletionKind::Value, None, Some(docs_or(docs, "string")), deprecated, true, "\"$0\"".to_owned(), range);
    } else if str_equals(name, "boolean") {
        push_value_item(completions, "true".to_owned(), None, CompletionKind::Value, None, Some(docs_or(docs, "true value")), deprecated, true, "true$0".to_owned(), range);
        push_value_item(completions, "false".to_owned(), None, CompletionKind::Value, None, Some(docs_or(docs, "false value")), deprecated, true, "false$0".to_owned(), range);
    } else if str_equals(name, "array") {
        push_value_item(completions, "[]".to_owned(), None, CompletionKind::Value, None, Some(docs_or(docs, "array")), deprecated, true, "[$0]".to_owned(), range);
    } else if str_equals(name, "object") {
        push_value_item(completions, "{ }".to_owned(), None, CompletionKind::Value, None, Some(docs_or(docs, "object")), deprecated, true, "{ $0 }".to_owned(), range);
    }
    assert(items_view(completions@) =~= items_view(old(completions)@) + type_items_for(*schema, name@, range));
}

/// The decimal digits of a position.
fn position_text(i: usize) -> (r: String)
    ensures
        r@ == decimal(i as nat),
{
    let mut r = String::new();
    push_decimal(&mut r, i as u64);
    assert(r@ =~= decimal(i as nat));
    r
}

proof fn lemma_enum_items_prefix(
    schema: JsonValue,
    values: Seq<JsonValue>,
    l1: Seq<Option<String>>,
    l2: Seq<Option<String>>,
    range: Option<TextRange>,
    n: nat,
)
    requires
        n <= l1.len(),
        n <= l2.len(),
        forall|k: int| 0 <= k < n ==> l1[k] == l2[k],
    ensures
        enum_items(schema, values, l1, range, n) == enum_items(schema, values, l2, range, n),
    decreases n,
{
    if n > 0 {
        lemma_enum_items_prefix(schema, values, l1, l2, range, (n - 1) as nat);
    }
}

proof fn lemma_example_items_prefix(
    schema: JsonValue,
    l1: Seq<Option<String>>,
    l2: Seq<Option<String>>,
    range: Option<TextRange>,
    n: nat,
)
    requires
        n <= l1.len(),
        n <= l2.len(),
        forall|k: int| 0 <= k < n ==> l1[k] == l2[k],
    ensures
        example_items(schema, l1, range, n) == example_items(schema, l2, range, n),
    decreases n,
{
    if n > 0 {
        lemma_example_items_prefix(schema, l1, l2, range, (n - 1) as nat);
    }
}

/// Appends the candidates for each enum value that renders.
fn push_enum_items<F: Fn(&JsonValue, bool) -> Option<String>>(
    completions: &mut Vec<CompletionItem>,
    schema: &JsonValue,
    values: &Vec<JsonValue>,
    range: Option<TextRange>,
    single_quote: bool,
    render: &F,
) -> (lits: Ghost<Seq<Option<String>>>)
    requires
        forall|v: &JsonValue, q: bool| call_requires(*render, (v, q)),
    ensures
        renders_each(*render, values@, single_quote, lits@),
        items_view(final(completions)@) == items_view(old(completions)@) + enum_items(
            *schema,
            values@,
            lits@,
            range,
            values@.len(),
        ),
{
    let docs = schema_docs(schema);
    let deprecated = is_deprecated(schema);
    let enum_docs: Vec<Option<String>> = match schema_ext_of(schema) {
        Some(e) => match e.docs {
            Some(d) => match d.enum_values {
                Some(v) => v,
                None => Vec::new(),
            },
            None => Vec::new(),
        },
        None => Vec::new(),
    };
    assert(opt_strs(enum_docs@) =~= spec_ext_enum_values(*schema, "docs"@));
    let ghost mut lits: Seq<Option<String>> = Seq::empty();
    let mut i: usize = 0;
    while i < values.len()
        invariant
            0 <= i <= values@.len(),
            forall|v: &JsonValue, q: bool| call_requires(*render, (v, q)),
            lits.len() == i,
            forall|k: int| 0 <= k < i ==> toml_of(*render, values@[k], single_quote, #[trigger] lits[k]),
            opt_chars(docs) == spec_schema_docs(*schema),
            deprecated == spec_flag(*schema, "deprecated"@),
            opt_strs(enum_docs@) == spec_ext_enum_values(*schema, "docs"@),
            items_view(completions@) == items_view(old(completions)@) + enum_items(
                *schema,
                values@,
                lits,
                range,
                i as nat,
            ),
        decreases values@.len() - i,
    {
        let lit = render(&values[i], single_quote);
        let ghost prefix = items_view(completions@);
        proof {
            let old_lits = lits;
            lits = lits.push(lit);
            lemma_enum_items_prefix(*schema, values@, old_lits, lits, range, i as nat);
            assert(toml_of(*render, values@[i as int], single_quote, lits[i as int]));
        }
        match lit {
            Some(l) => {
                let mut sort = position_text(i);
                sort.append(l.as_str());
                let kind = match &values[i] {
                    JsonValue::Object(_) => CompletionKind::Struct,
                    _ => CompletionKind::Value,
                };
                let documentation = if i < enum_docs.len() {
                    match &enum_docs[i] {
                        Some(d) => Some(d.clone()),
                        None => clone_opt(&docs),
                    }
                } else {
                    clone_opt(&docs)
                };
                proof {
                    if (i as int) < enum_docs@.len() {
                        assert(opt_strs(enum_docs@)[i as int] == opt_chars(enum_docs@[i as int]));
                    }
                }
                let label = l.clone();
                push_value_item(completions, label, Some(sort), kind, None, documentation, deprecated, false, l, range);
            },
            None => {},
        }
        proof {
            assert(enum_items(*schema, values@, lits, range, (i + 1) as nat) == if lits[i as int] is Some {
                enum_items(*schema, values@, lits, range, i as nat).push(value_item(
                    lits[i as int]->0@,
                    Some(decimal(i as nat) + lits[i as int]->0@),
                    if values@[i as int] is Object { CompletionKind::Struct } else { CompletionKind::Value },
                    None,
                    enum_doc(*schema, i as int),
                    spec_flag(*schema, "deprecated"@),
                    false,
                    lits[i as int]->0@,
                    range,
                ))
            } else {
                enum_items(*schema, values@, lits, range, i as nat)
            });
            assert(items_view(completions@) =~= items_view(old(completions)@) + enum_items(*schema, values@, lits, range, (i + 1) as nat));
        }
        i += 1;
    }
    Ghost(lits)
}


/// Appends the candidates for each example that renders.
fn push_example_items<F: Fn(&JsonValue, bool) -> Option<String>>(
    completions: &mut Vec<CompletionItem>,
    schema: &JsonValue,
    examples: &Vec<JsonValue>,
    docs: &Option<String>,
    deprecated: bool,
    range: Option<TextRange>,
    single_quote: bool,
    render: &F,
) -> (lits: Ghost<Seq<Option<String>>>)
    requires
        forall|v: &JsonValue, q: bool| call_requires(*render, (v, q)),
        opt_chars(*docs) == spec_schema_docs(*schema),
        deprecated == spec_flag(*schema, "deprecated"@),
    ensures
        renders_each(*render, examples@, single_quote, lits@),
        items_view(final(completions)@) == items_view(old(completions)@) + example_items(
            *schema,
            lits@,
            range,
            examples@.len(),
        ),
{
    let ghost mut lits: Seq<Option<String>> = Seq::empty();
    let mut i: usize = 0;
    while i < examples.len()
        invariant
            0 <= i <= examples@.len(),
            forall|v: &JsonValue, q: bool| call_requires(*render, (v, q)),
            lits.len() == i,
            forall|k: int| 0 <= k < i ==> toml_of(*render, examples@[k], single_quote, #[trigger] lits[k]),
            opt_chars(*docs) == spec_schema_docs(*schema),
            deprecated == spec_flag(*schema, "deprecated"@),
            items_view(completions@) == items_view(old(completions)@) + example_items(
                *schema,
                lits,
                range,
                i as nat,
            ),
        decreases examples@.len() - i,
    {
        let lit = render(&examples[i], single_quote);
        proof {
            let old_lits = lits;
            lits = lits.push(lit);
            lemma_example_items_prefix(*schema, old_lits, lits, range, i as nat);
            assert(toml_of(*render, examples@[i as int], single_quote, lits[i as int]));
        }
        match lit {
            Some(l) => {
                let label = l.clone();
                push_value_item(completions, label, None, CompletionKind::Value, Some("example".to_owned()), clone_opt(docs), deprecated, false, l, range);
            },
            None => {},
        }
        proof {
            assert(items_view(completions@) =~= items_view(old(completions)@) + example_items(*schema, lits, range, (i + 1) as nat));
        }
        i += 1;
    }
    Ghost(lits)
}

/// The names of the types a value may have, as `value_type_names` reads them.
fn type_names(schema: &JsonValue) -> (r: Vec<String>)
    ensures
        strs(r@) == value_type_names(*schema),
{
    match schema.get("type") {
        None | Some(JsonValue::Null) => {
            let v = vec!["object".to_owned()];
            assert(strs(v@) =~= seq!["object"@]);
            v
        },
        Some(JsonValue::String(s)) => {
            let v = vec![s.clone()];
            assert(strs(v@) =~= seq![s@]);
            v
        },
        Some(JsonValue::Array(tys)) => collect_strings(tys),
        Some(_) => {
            let v: Vec<String> = Vec::new();
            assert(strs(v@) =~= Seq::<Seq<char>>::empty());
            v
        },
    }
}

/// Adds the value candidates a schema offers, in the order
/// `value_completions_rel` gives them.
pub fn add_value_completions_inner<F: Fn(&JsonValue, bool) -> Option<String>>(
    schema: &JsonValue,
    range: Option<TextRange>,
    completions: &mut Vec<CompletionItem>,
    single_quote: bool,
    render: &F,
)
    requires
        forall|v: &JsonValue, q: bool| call_requires(*render, (v, q)),
    ensures
        exists|out: Seq<ItemView>|
            #[trigger] value_completions_rel(*render, *schema, range, single_quote, out)
                && items_view(final(completions)@) == items_view(old(completions)@) + out,
{
    let docs = schema_docs(schema);
    let deprecated = is_deprecated(schema);
    if let Some(JsonValue::Array(values)) = schema.get("enum") {
        let Ghost(lits) = push_enum_items(completions, schema, values, range, single_quote, render);
        assert(value_completions_rel(*render, *schema, range, single_quote, enum_items(*schema, values@, lits, range, values@.len())));
        return;
    }
    let ghost before = items_view(completions@);
    if let Some(const_value) = schema.get("const") {
        let lit = render(const_value, single_quote);
        assert(toml_of(*render, *const_value, single_quote, lit));
        match lit {
            Some(l) => {
                let documentation = match schema_ext_of(schema) {
                    Some(e) => match e.docs {
                        Some(d) => match d.const_value {
                            Some(c) => Some(c),
                            None => clone_opt(&docs),
                        },
                        None => clone_opt(&docs),
                    },
                    None => clone_opt(&docs),
                };
                let label = l.clone();
                push_value_item(completions, label, None, CompletionKind::Value, None, documentation, deprecated, false, l, range);
            },
            None => {},
        }
        assert(items_view(completions@) =~= before + const_items(*schema, lit, range));
        assert(value_completions_rel(*render, *schema, range, single_quote, const_items(*schema, lit, range)));
        return;
    }
    let ghost mut dl: Option<String> = None;
    if let Some(default_value) = schema.get("default") {
        let lit = render(default_value, single_quote);
        proof {
            dl = lit;
        }
        match lit {
            Some(l) => {
                let documentation = match schema_ext_of(schema) {
                    Some(e) => match e.docs {
                        Some(d) => match d.default_value {
                            Some(c) => Some(c),
                            None => clone_opt(&docs),
                        },
                        None => clone_opt(&docs),
                    },
                    None => clone_opt(&docs),
                };
                let label = l.clone();
                push_value_item(completions, label, None, CompletionKind::Value, Some("default".to_owned()), documentation, deprecated, false, l, range);
            },
            None => {},
        }
    }
    assert(default_lit_ok(*render, *schema, single_quote, dl));
    assert(items_view(completions@) =~= before + default_items(*schema, dl, range));
    let ghost after_default = items_view(completions@);
    let ghost mut lits: Seq<Option<String>> = Seq::empty();
    if let Some(JsonValue::Array(examples)) = schema.get("examples") {
        let Ghost(l) = push_example_items(completions, schema, examples, &docs, deprecated, range, single_quote, render);
        proof {
            lits = l;
        }
    } else {
        assert(items_view(completions@) =~= after_default + example_items(*schema, lits, range, 0));
    }
    assert(examples_lits_ok(*render, *schema, single_quote, lits));
    let ghost after_examples = items_view(completions@);
    let names = type_names(schema);
    let mut i: usize = 0;
    while i < names.len()
        invariant
            0 <= i <= names@.len(),
            strs(names@) == value_type_names(*schema),
            opt_chars(docs) == spec_schema_docs(*schema),
            deprecated == spec_flag(*schema, "deprecated"@),
            items_view(completions@) == after_examples + type_items(*schema, strs(names@), range, i as nat),
        decreases names@.len() - i,
    {
        push_type_items(completions, schema, names[i].as_str(), &docs, deprecated, range);
        i += 1;
        assert(items_view(completions@) =~= after_examples + type_items(*schema, strs(names@), range, i as nat));
    }
    let ghost out = default_items(*schema, dl, range) + example_items(*schema, lits, range, lits.len())
        + type_items(*schema, value_type_names(*schema), range, value_type_names(*schema).len());
    assert(items_view(completions@) =~= before + out);
    assert(value_completions_rel(*render, *schema, range, single_quote, out));
}


/// The labels of candidates, in order.
pub open spec fn labels(items: Seq<ItemView>) -> Seq<Seq<char>> {
    items.map_values(|i: ItemView| i.0)
}

/// `items` with every candidate whose label an earlier one already has left
/// out.
pub open spec fn dedup_labels(items: Seq<ItemView>) -> Seq<ItemView>
    decreases items.len(),
{
    if items.len() == 0 {
        Seq::empty()
    } else {
        let kept = dedup_labels(items.drop_last());
        if labels(kept).contains(items.last().0) {
            kept
        } else {
            kept.push(items.last())
        }
    }
}

/// Leaving out repeated labels keeps exactly one candidate for each label
/// offered, the first one, so no two candidates share a label.
pub proof fn dedup_labels_keeps_one_per_label(items: Seq<ItemView>)
    ensures
        labels(dedup_labels(items)).no_duplicates(),
        forall|l: Seq<char>| labels(items).contains(l) <==> labels(dedup_labels(items)).contains(l),
        forall|j: int| 0 <= j < dedup_labels(items).len() ==> exists|i: int| 0 <= i < items.len()
            && #[trigger] dedup_labels(items)[j] == items[i]
            && forall|h: int| 0 <= h < i ==> items[h].0 != items[i].0,
    decreases items.len(),
{
    if items.len() > 0 {
        let init = items.drop_last();
        dedup_labels_keeps_one_per_label(init);
        let kept = dedup_labels(init);
        let x = items.last();
        assert(labels(items) =~= labels(init).push(x.0));
        if !labels(kept).contains(x.0) {
            assert(labels(kept.push(x)) =~= labels(kept).push(x.0));
            assert forall|h: int| 0 <= h < items.len() - 1 implies #[trigger] items[h].0 != x.0 by {
                assert(labels(init)[h] == items[h].0);
                assert(labels(init).contains(items[h].0));
            }
        }
        let d = dedup_labels(items);
        assert(labels(d) =~= if labels(kept).contains(x.0) { labels(kept) } else { labels(kept).push(x.0) });
        assert forall|l: Seq<char>| labels(items).contains(l) <==> labels(d).contains(l) by {
            if labels(items).contains(l) {
                let i = choose|i: int| 0 <= i < labels(items).len() && labels(items)[i] == l;
                if i < init.len() {
                    assert(labels(init)[i] == l);
                    assert(labels(init).contains(l));
                    let m = choose|m: int| 0 <= m < labels(kept).len() && labels(kept)[m] == l;
                    assert(labels(d)[m] == l);
                } else if !labels(kept).contains(x.0) {
                    assert(labels(d)[labels(kept).len() as int] == l);
                }
            }
            if labels(d).contains(l) {
                let m = choose|m: int| 0 <= m < labels(d).len() && labels(d)[m] == l;
                if m < labels(kept).len() {
                    assert(labels(kept)[m] == l);
                    assert(labels(kept).contains(l));
                    assert(labels(init).contains(l));
                    let i = choose|i: int| 0 <= i < labels(init).len() && labels(init)[i] == l;
                    assert(labels(items)[i] == l);
                } else {
                    assert(labels(items)[init.len() as int] == l);
                }
            }
        }
        assert forall|j: int| 0 <= j < dedup_labels(items).len() implies exists|i: int| 0 <= i < items.len()
            && #[trigger] dedup_labels(items)[j] == items[i]
            && forall|h: int| 0 <= h < i ==> items[h].0 != items[i].0 by {
            if j < kept.len() {
                let i = choose|i: int| 0 <= i < init.len() && #[trigger] kept[j] == init[i]
                    && forall|h: int| 0 <= h < i ==> init[h].0 != init[i].0;
                assert(items[i] == init[i]);
                assert forall|h: int| 0 <= h < i implies items[h].0 != items[i].0 by {
                    assert(items[h] == init[h]);
                }
            } else {
                let i = items.len() - 1;
                assert(dedup_labels(items)[j] == items[i]);
            }
        }
    }
}

/// Whether `label` is among `seen`.
fn contains_label(seen: &Vec<String>, label: &String) -> (r: bool)
    ensures
        r == strs(seen@).contains(label@),
{
    let mut i: usize = 0;
    while i < seen.len()
        invariant
            0 <= i <= seen@.len(),
            forall|k: int| 0 <= k < i ==> (#[trigger] seen@[k])@ != label@,
        decreases seen@.len() - i,
    {
        if seen[i] == *label {
            assert(strs(seen@)[i as int] == label@);
            return true;
        }
        i += 1;
    }
    assert(!strs(seen@).contains(label@)) by {
        assert forall|k: int| 0 <= k < strs(seen@).len() implies strs(seen@)[k] != label@ by {
            assert(strs(seen@)[k] == seen@[k]@);
        }
    }
    false
}

/// Adds the value candidates a schema offers, leaving out any whose label an
/// earlier candidate of this call already has.
///
/// A schema can offer the same literal as its default, one of its examples
/// and its type's placeholder. Only this call's items are compared, so two
/// branches of a `oneOf` still each contribute their own candidates.
pub fn add_value_completions<F: Fn(&JsonValue, bool) -> Option<String>>(
    schema: &JsonValue,
    range: Option<TextRange>,
    completions: &mut Vec<CompletionItem>,
    single_quote: bool,
    render: &F,
)
    requires
        forall|v: &JsonValue, q: bool| call_requires(*render, (v, q)),
    ensures
        exists|out: Seq<ItemView>|
            #[trigger] value_completions_rel(*render, *schema, range, single_quote, out)
                && items_view(final(completions)@) == items_view(old(completions)@) + dedup_labels(out),
{
    let first = completions.len();
    let ghost prior = items_view(completions@);
    add_value_completions_inner(schema, range, completions, single_quote, render);
    let ghost out = choose|out: Seq<ItemView>|
        #[trigger] value_completions_rel(*render, *schema, range, single_quote, out)
            && items_view(completions@) == prior + out;
    let ghost n = out.len();
    let mut seen: Vec<String> = Vec::new();
    let mut index = first;
    let ghost mut k: int = 0;
    assert(items_view(completions@) =~= prior + dedup_labels(out.take(0)) + out.skip(0));
    while index < completions.len()
        invariant
            prior.len() == first,
            0 <= k <= n,
            n == out.len(),
            first <= index <= completions@.len(),
            items_view(completions@) == prior + dedup_labels(out.take(k)) + out.skip(k),
            index == first + dedup_labels(out.take(k)).len(),
            strs(seen@) == labels(dedup_labels(out.take(k))),
        decreases completions@.len() - index,
    {
        proof {
            assert(items_view(completions@)[index as int] == out[k]);
            assert(out.take(k + 1).drop_last() =~= out.take(k));
            assert(out.take(k + 1).last() == out[k]);
            assert(completions@[index as int].label@ == out[k].0);
        }
        let ghost before = completions@;
        if contains_label(&seen, &completions[index].label) {
            completions.remove(index);
            proof {
                assert(labels(dedup_labels(out.take(k))).contains(out[k].0));
                assert(dedup_labels(out.take(k + 1)) == dedup_labels(out.take(k)));
                assert(items_view(completions@) =~= items_view(before).remove(index as int));
                assert(out.skip(k).remove(0) =~= out.skip(k + 1));
                assert(items_view(completions@) =~= prior + dedup_labels(out.take(k + 1)) + out.skip(k + 1));
                k = k + 1;
            }
        } else {
            let label = completions[index].label.clone();
            let ghost seen_before = seen@;
            seen.push(label);
            proof {
                lemma_strs_push_label(seen_before, label);
                assert(labels(dedup_labels(out.take(k + 1))) =~= labels(dedup_labels(out.take(k))).push(out[k].0));
                assert(items_view(completions@) =~= prior + dedup_labels(out.take(k + 1)) + out.skip(k + 1));
                k = k + 1;
            }
            index += 1;
        }
    }
    proof {
        assert(k == n);
        assert(out.take(k) =~= out);
        assert(items_view(completions@) =~= prior + dedup_labels(out));
    }
}

proof fn lemma_strs_push_label(old: Seq<String>, x: String)
    ensures
        strs(old.push(x)) == strs(old).push(x@),
{
    assert(strs(old.push(x)) =~= strs(old).push(x@));
}


/// A snippet tab stop: `$` and its number.
pub open spec fn tabstop(n: nat) -> Seq<char> {
    seq!['$'] + decimal(n)
}

/// A snippet placeholder: `${n:text}`.
pub open spec fn placeholder(n: nat, text: Seq<char>) -> Seq<char> {
    "${"@ + decimal(n) + ":"@ + text + "}"@
}

/// The snippet an empty value of the schema's type starts from: a tab stop
/// for a reference, a table for no type or `object`, an array, a string, a
/// `false` placeholder for a boolean, and a bare tab stop otherwise.
pub open spec fn spec_empty_value_snippet(schema: JsonValue, n: nat) -> Seq<char> {
    if spec_str_at(schema, "$ref"@) is Some {
        tabstop(n)
    } else {
        match spec_index(schema, "type"@) {
            JsonValue::Null => "{ "@ + tabstop(n) + " }"@,
            JsonValue::String(t) => if t@ == "object"@ {
                "{ "@ + tabstop(n) + " }"@
            } else if t@ == "array"@ {
                "["@ + tabstop(n) + "]"@
            } else if t@ == "string"@ {
                "\""@ + tabstop(n) + "\""@
            } else if t@ == "boolean"@ {
                placeholder(n, "false"@)
            } else {
                tabstop(n)
            },
            _ => tabstop(n),
        }
    }
}

/// Appends a tab stop.
fn push_tabstop(s: &mut String, n: usize)
    ensures
        final(s)@ == old(s)@ + tabstop(n as nat),
{
    proof {
        reveal_strlit("$");
    }
    s.append("$");
    push_decimal(s, n as u64);
    assert(final(s)@ =~= old(s)@ + tabstop(n as nat));
}

/// `${n:text}`.
fn placeholder_text(n: usize, text: &str) -> (r: String)
    ensures
        r@ == placeholder(n as nat, text@),
{
    let mut r = "${".to_owned();
    push_decimal(&mut r, n as u64);
    r.append(":");
    r.append(text);
    r.append("}");
    assert(r@ =~= placeholder(n as nat, text@));
    r
}

/// `before`, a tab stop, `after`.
fn around_tabstop(before: &str, n: usize, after: &str) -> (r: String)
    ensures
        r@ == before@ + tabstop(n as nat) + after@,
{
    let mut r = before.to_owned();
    push_tabstop(&mut r, n);
    r.append(after);
    r
}

/// The snippet an empty value of the schema's type starts from.
pub fn empty_value_snippet(schema: &JsonValue, cursor_count: usize) -> (r: String)
    ensures
        r@ == spec_empty_value_snippet(*schema, cursor_count as nat),
{
    proof {
        reveal_strlit("");
    }
    if schema.is_schema_ref() {
        return around_tabstop("", cursor_count, "");
    }
    match schema.get("type") {
        None | Some(JsonValue::Null) => around_tabstop("{ ", cursor_count, " }"),
        Some(JsonValue::String(t)) => {
            if str_equals(t.as_str(), "object") {
                around_tabstop("{ ", cursor_count, " }")
            } else if str_equals(t.as_str(), "array") {
                around_tabstop("[", cursor_count, "]")
            } else if str_equals(t.as_str(), "string") {
                around_tabstop("\"", cursor_count, "\"")
            } else if str_equals(t.as_str(), "boolean") {
                placeholder_text(cursor_count, "false")
            } else {
                around_tabstop("", cursor_count, "")
            }
        },
        Some(_) => around_tabstop("", cursor_count, ""),
    }
}

/// `s` with each run of equal neighbours cut to its first, as `Vec::dedup`
/// leaves it.
pub open spec fn dedup_consecutive(s: Seq<Seq<char>>) -> Seq<Seq<char>>
    decreases s.len(),
{
    if s.len() == 0 {
        Seq::empty()
    } else {
        let d = dedup_consecutive(s.drop_last());
        if d.len() > 0 && d.last() == s.last() {
            d
        } else {
            d.push(s.last())
        }
    }
}

/// The keys a new table starts with: those `x-taplo.initKeys` names, then
/// the required ones, runs of the same key written once.
pub open spec fn spec_init_keys(schema: JsonValue) -> Seq<Seq<char>> {
    dedup_consecutive(
        (match spec_ext_init_keys(schema) {
            Some(k) => k,
            None => Seq::empty(),
        }) + (match spec_index(schema, "required"@) {
            JsonValue::Array(items) => string_items(items@),
            _ => Seq::empty(),
        }),
    )
}

/// The table snippet for `keys` with the snippets of their values:
/// `{ key = value, ... }$0`.
pub open spec fn table_snippet(keys: Seq<Seq<char>>, values: Seq<Seq<char>>) -> Seq<char> {
    "{ "@ + join(
        Seq::new(keys.len(), |i: int| keys[i] + " = "@ + values[i]),
        ", "@,
    ) + " }$0"@
}


/// `s` with runs of equal neighbours cut to their first.
fn dedup_keys(s: Vec<String>) -> (r: Vec<String>)
    ensures
        strs(r@) == dedup_consecutive(strs(s@)),
{
    let mut r: Vec<String> = Vec::new();
    let mut i: usize = 0;
    while i < s.len()
        invariant
            0 <= i <= s@.len(),
            strs(r@) == dedup_consecutive(strs(s@).take(i as int)),
        decreases s@.len() - i,
    {
        assert(strs(s@).take(i + 1).drop_last() =~= strs(s@).take(i as int));
        let n = r.len();
        if n > 0 && r[n - 1] == s[i] {
            assert(strs(r@).last() == strs(s@).take(i + 1).last());
        } else {
            let ghost before = r@;
            let k = s[i].clone();
            r.push(k);
            proof {
                lemma_strs_push(before, k);
            }
        }
        i += 1;
    }
    assert(strs(s@).take(i as int) =~= strs(s@));
    r
}

/// The keys a new table starts with.
fn init_keys(schema: &JsonValue) -> (r: Vec<String>)
    ensures
        strs(r@) == spec_init_keys(*schema),
{
    let mut keys: Vec<String> = match schema_ext_of(schema) {
        Some(e) => match e.init_keys {
            Some(k) => k,
            None => Vec::new(),
        },
        None => Vec::new(),
    };
    let ghost ext_keys = strs(keys@);
    assert(ext_keys =~= match spec_ext_init_keys(*schema) {
        Some(k) => k,
        None => Seq::<Seq<char>>::empty(),
    });
    let mut required = match schema.get("required") {
        Some(JsonValue::Array(items)) => collect_strings(items),
        _ => Vec::new(),
    };
    let ghost req = strs(required@);
    assert(req =~= match spec_index(*schema, "required"@) {
        JsonValue::Array(items) => string_items(items@),
        _ => Seq::<Seq<char>>::empty(),
    });
    keys.append(&mut required);
    assert(strs(keys@) =~= ext_keys + req);
    dedup_keys(keys)
}

/// A schema with initial keys is an object, so it is at least one deep.
proof fn lemma_init_keys_object(schema: JsonValue)
    requires
        spec_init_keys(schema).len() > 0,
    ensures
        json_height(schema) >= 1,
{
    let ext: Seq<Seq<char>> = match spec_ext_init_keys(schema) {
        Some(k) => k,
        None => Seq::empty(),
    };
    let req: Seq<Seq<char>> = match spec_index(schema, "required"@) {
        JsonValue::Array(items) => string_items(items@),
        _ => Seq::empty(),
    };
    if ext.len() == 0 && req.len() == 0 {
        assert(ext + req =~= Seq::<Seq<char>>::empty());
    }
    if !(schema is Object) {
        assert(spec_get(schema, "required"@) is None);
        assert(spec_get(schema, "x-taplo"@) is None);
    }
}


/// The renderer gives one literal per value and quote style.
pub open spec fn renders_deterministically<F: Fn(&JsonValue, bool) -> Option<String>>(render: F) -> bool {
    forall|v: JsonValue, q: bool, r1: Option<String>, r2: Option<String>|
        #![trigger toml_of(render, v, q, r1), toml_of(render, v, q, r2)]
        toml_of(render, v, q, r1) && toml_of(render, v, q, r2) ==> r1 == r2
}

/// The literal the renderer gives for `value`.
pub open spec fn literal<F: Fn(&JsonValue, bool) -> Option<String>>(render: F, value: JsonValue, q: bool) -> Option<String> {
    choose|r: Option<String>| toml_of(render, value, q, r)
}

proof fn lemma_literal<F: Fn(&JsonValue, bool) -> Option<String>>(render: F, value: JsonValue, q: bool, r: Option<String>)
    requires
        renders_deterministically(render),
        toml_of(render, value, q, r),
    ensures
        literal(render, value, q) == r,
{
    let c = literal(render, value, q);
    assert(toml_of(render, value, q, c));
}

/// The snippet a new value of `schema` starts from, at tab stop `n`: the
/// const's literal as a placeholder when it renders; else the default's;
/// else a bare tab stop for an enum; else a table of the initial keys, each
/// with its own snippet at the next tab stop; else an empty value of the
/// schema's type.
pub open spec fn spec_default_snippet<F: Fn(&JsonValue, bool) -> Option<String>>(
    render: F,
    schema: JsonValue,
    n: nat,
    q: bool,
) -> Seq<char>
    decreases json_height(schema), spec_init_keys(schema).len() + 1,
{
    let const_lit = match spec_get(schema, "const"@) {
        Some(c) => literal(render, c, q),
        None => None,
    };
    let default_lit = match spec_get(schema, "default"@) {
        Some(d) => literal(render, d, q),
        None => None,
    };
    let keys = spec_init_keys(schema);
    if const_lit is Some {
        placeholder(n, const_lit->0@)
    } else if default_lit is Some {
        placeholder(n, default_lit->0@)
    } else if spec_get(schema, "enum"@) is Some {
        tabstop(n)
    } else if keys.len() > 0 {
        table_snippet(
            keys,
            child_snippets(render, spec_index(schema, "properties"@), keys, n + 1, q, json_height(schema)),
        )
    } else {
        spec_empty_value_snippet(schema, n)
    }
}

/// The snippets, at tab stop `n`, of the properties `keys` name in `props`,
/// each less deep than `h`.
pub open spec fn child_snippets<F: Fn(&JsonValue, bool) -> Option<String>>(
    render: F,
    props: JsonValue,
    keys: Seq<Seq<char>>,
    n: nat,
    q: bool,
    h: nat,
) -> Seq<Seq<char>>
    decreases h, keys.len(),
{
    if keys.len() == 0 {
        Seq::empty()
    } else {
        let child = spec_index(props, keys.last());
        child_snippets(render, props, keys.drop_last(), n, q, h).push(
            if json_height(child) < h {
                spec_default_snippet(render, child, n, q)
            } else {
                Seq::empty()
            },
        )
    }
}

proof fn lemma_child_snippets_len<F: Fn(&JsonValue, bool) -> Option<String>>(
    render: F,
    props: JsonValue,
    keys: Seq<Seq<char>>,
    n: nat,
    q: bool,
    h: nat,
)
    ensures
        child_snippets(render, props, keys, n, q, h).len() == keys.len(),
    decreases keys.len(),
{
    if keys.len() > 0 {
        lemma_child_snippets_len(render, props, keys.drop_last(), n, q, h);
    }
}

/// The snippet a new value of `schema` starts from, at tab stop
/// `cursor_count`, rendering literals with `render`.
pub fn default_value_snippet<F: Fn(&JsonValue, bool) -> Option<String>>(
    schema: &JsonValue,
    cursor_count: usize,
    single_quote: bool,
    render: &F,
) -> (r: String)
    requires
        forall|v: &JsonValue, q: bool| call_requires(*render, (v, q)),
        renders_deterministically(*render),
        cursor_count + json_height(*schema) <= usize::MAX,
    ensures
        r@ == spec_default_snippet(*render, *schema, cursor_count as nat, single_quote),
    decreases json_height(*schema), 1int,
{
    let n = cursor_count;
    if let Some(c) = schema.get("const") {
        let lit = render(c, single_quote);
        proof {
            lemma_literal(*render, *c, single_quote, lit);
        }
        if let Some(l) = lit {
            return placeholder_text(n, l.as_str());
        }
    }
    if let Some(d) = schema.get("default") {
        let lit = render(d, single_quote);
        proof {
            lemma_literal(*render, *d, single_quote, lit);
        }
        if let Some(l) = lit {
            return placeholder_text(n, l.as_str());
        }
    }
    default_value_tail(schema, n, single_quote, render)
}

/// What follows when neither the const nor the default renders.
#[verifier::spinoff_prover]
#[verifier::rlimit(40)]
fn default_value_tail<F: Fn(&JsonValue, bool) -> Option<String>>(
    schema: &JsonValue,
    n: usize,
    single_quote: bool,
    render: &F,
) -> (r: String)
    requires
        forall|v: &JsonValue, q: bool| call_requires(*render, (v, q)),
        renders_deterministically(*render),
        n + json_height(*schema) <= usize::MAX,
    ensures
        ({
            let keys = spec_init_keys(*schema);
            if spec_get(*schema, "enum"@) is Some {
                r@ == tabstop(n as nat)
            } else if keys.len() > 0 {
                r@ == table_snippet(
                    keys,
                    child_snippets(*render, spec_index(*schema, "properties"@), keys, (n as nat) + 1, single_quote, json_height(*schema)),
                )
            } else {
                r@ == spec_empty_value_snippet(*schema, n as nat)
            }
        }),
    decreases json_height(*schema), 0int,
{
    proof {
        reveal_strlit("");
    }
    if schema.get("enum").is_some() {
        return around_tabstop("", n, "");
    }
    let keys = init_keys(schema);
    if keys.len() == 0 {
        return empty_value_snippet(schema, n);
    }
    proof {
        lemma_init_keys_object(*schema);
    }
    let null = JsonValue::Null;
    let props: &JsonValue = match schema.get("properties") {
        Some(p) => p,
        None => &null,
    };
    proof {
        if spec_get(*schema, "properties"@) is Some {
            lemma_member_height(*schema, "properties"@);
        }
    }
    let ghost h = json_height(*schema);
    let ghost ks = strs(keys@);
    let mut s = "{ ".to_owned();
    let mut i: usize = 0;
    while i < keys.len()
        invariant
            0 <= i <= keys@.len(),
            forall|v: &JsonValue, q: bool| call_requires(*render, (v, q)),
            renders_deterministically(*render),
            null is Null,
            ks == strs(keys@),
            *props == spec_index(*schema, "properties"@),
            h == json_height(*schema),
            h >= 1,
            json_height(*props) < h || *props is Null,
            n + h <= usize::MAX,
            s@ == "{ "@ + join(
                Seq::new(i as nat, |k: int| ks[k] + " = "@ + child_snippets(*render, *props, ks.take(i as int), (n as nat) + 1, single_quote, h)[k]),
                ", "@,
            ),
        decreases keys@.len() - i,
    {
        let child: &JsonValue = match props.get(keys[i].as_str()) {
            Some(c) => c,
            None => &null,
        };
        proof {
            if spec_get(*props, ks[i as int]) is Some {
                lemma_member_height(*props, ks[i as int]);
            }
            assert(*child == spec_index(*props, ks[i as int]));
            assert(json_height(*child) < h);
        }
        let v = default_value_snippet(child, n + 1, single_quote, render);
        if i != 0 {
            s.append(", ");
        }
        s.append(keys[i].as_str());
        s.append(" = ");
        s.append(v.as_str());
        proof {
            let cs_old = child_snippets(*render, *props, ks.take(i as int), (n as nat) + 1, single_quote, h);
            let cs_new = child_snippets(*render, *props, ks.take(i + 1), (n as nat) + 1, single_quote, h);
            assert(ks.take(i + 1).drop_last() =~= ks.take(i as int));
            assert(ks.take(i + 1).last() == ks[i as int]);
            assert(cs_new == cs_old.push(v@));
            lemma_child_snippets_len(*render, *props, ks.take(i as int), (n as nat) + 1, single_quote, h);
            let items_old = Seq::new(i as nat, |k: int| ks[k] + " = "@ + cs_old[k]);
            let items_new = Seq::new((i + 1) as nat, |k: int| ks[k] + " = "@ + cs_new[k]);
            assert(items_new.drop_last() =~= items_old);
            reveal_strlit("");
            assert(s@ =~= "{ "@ + join(items_new, ", "@));
        }
        i += 1;
    }
    s.append(" }$0");
    proof {
        assert(ks.take(i as int) =~= ks);
        assert(ks == spec_init_keys(*schema));
        assert(s@ =~= table_snippet(ks, child_snippets(*render, *props, ks, (n as nat) + 1, single_quote, h)));
    }
    s
}


/// The insert text for a new entry: the keys, ` = `, and the snippet its
/// value starts from.
pub fn new_entry_snippet<F: Fn(&JsonValue, bool) -> Option<String>>(
    keys: &str,
    schema: &JsonValue,
    single_quote: bool,
    render: &F,
) -> (r: String)
    requires
        forall|v: &JsonValue, q: bool| call_requires(*render, (v, q)),
        renders_deterministically(*render),
        json_height(*schema) <= usize::MAX,
    ensures
        r@ == keys@ + " = "@ + spec_default_snippet(*render, *schema, 0, single_quote),
{
    let value = default_value_snippet(schema, 0, single_quote, render);
    let mut r = keys.to_owned();
    r.append(" = ");
    r.append(value.as_str());
    r
}

/// The markdown documentation a completion item carries for a schema.
pub fn documentation(schema: &JsonValue) -> (r: Option<String>)
    ensures
        opt_chars(r) == spec_schema_docs(*schema),
{
    schema_docs(schema)
}

/// The parts of a completion item that come from the schema rather than from
/// the position in the document: its documentation and whether it is
/// deprecated. Everything else is empty.
pub fn schema_annotated_item(schema: &JsonValue) -> (r: CompletionItem)
    ensures
        item_view(r) == (
            Seq::<char>::empty(),
            None::<Seq<char>>,
            None::<CompletionKind>,
            None::<Seq<char>>,
            spec_schema_docs(*schema),
            spec_flag(*schema, "deprecated"@),
            false,
            None::<Seq<char>>,
            None::<(TextRange, Seq<char>)>,
        ),
{
    CompletionItem {
        label: String::new(),
        sort_text: None,
        kind: None,
        detail: None,
        documentation: documentation(schema),
        deprecated: is_deprecated(schema),
        snippet: false,
        insert_text: None,
        text_edit: None,
    }
}

/// Whether a value is the string `s`.
pub open spec fn is_str(v: JsonValue, s: Seq<char>) -> bool {
    v matches JsonValue::String(t) && t@ == s
}

/// Whether a schema can describe a table: it declares no type, the type
/// `object`, or a list of types that holds `object`.
pub open spec fn spec_is_table_schema(schema: JsonValue) -> bool {
    match spec_index(schema, "type"@) {
        JsonValue::Null => true,
        JsonValue::Array(items) => exists|i: int|
            0 <= i < items@.len() && is_str(#[trigger] items@[i], "object"@),
        t => is_str(t, "object"@),
    }
}

/// Whether a value is the string `s`.
fn value_is_str(v: &JsonValue, s: &str) -> (r: bool)
    ensures
        r == is_str(*v, s@),
{
    match v {
        JsonValue::String(t) => str_equals(t.as_str(), s),
        _ => false,
    }
}

/// Whether a schema can describe a table, which header completion offers.
pub fn is_table_schema(schema: &JsonValue) -> (r: bool)
    ensures
        r == spec_is_table_schema(*schema),
{
    let t = match schema.get("type") {
        Some(t) => t,
        None => return true,
    };
    match t {
        JsonValue::Null => true,
        JsonValue::String(_) => value_is_str(t, "object"),
        JsonValue::Array(items) => {
            assert(spec_index(*schema, "type"@) == JsonValue::Array(*items));
            let mut i: usize = 0;
            while i < items.len()
                invariant
                    0 <= i <= items@.len(),
                    spec_index(*schema, "type"@) == JsonValue::Array(*items),
                    forall|k: int| 0 <= k < i ==> !is_str(#[trigger] items@[k], "object"@),
                decreases items@.len() - i,
            {
                if value_is_str(&items[i], "object") {
                    assert(is_str(items@[i as int], "object"@));
                    assert(exists|j: int| 0 <= j < items@.len() && is_str(#[trigger] items@[j], "object"@));
                    let ghost tt = spec_index(*schema, "type"@);
                    assert(tt is Array);
                    assert(tt->Array_0 == *items);
                    assert(exists|j: int| 0 <= j < tt->Array_0@.len() && is_str(#[trigger] tt->Array_0@[j], "object"@));
                    assert(spec_is_table_schema(*schema));
                    return true;
                }
                i += 1;
            }
            false
        },
        _ => false,
    }
}

/// Whether a schema describes an array of tables: its type is `array` and
/// its items declare no type or the type `object`.
pub open spec fn spec_is_table_array_schema(schema: JsonValue) -> bool {
    let item_type = spec_index(spec_index(schema, "items"@), "type"@);
    is_str(spec_index(schema, "type"@), "array"@) && (is_str(item_type, "object"@) || item_type is Null)
}

/// Whether a schema describes an array of tables, which array-of-tables
/// header completion offers.
pub fn is_table_array_schema(schema: &JsonValue) -> (r: bool)
    ensures
        r == spec_is_table_array_schema(*schema),
{
    let is_array = match schema.get("type") {
        Some(t) => value_is_str(t, "array"),
        None => false,
    };
    if !is_array {
        return false;
    }
    let item_type = match schema.get("items") {
        Some(items) => items.get("type"),
        None => None,
    };
    match item_type {
        Some(t) => value_is_str(t, "object") || t.is_null(),
        None => true,
    }
}

/// Whether a table header completion offers a key: when nothing is at its
/// path yet, when what is there is the table the cursor is in, or when it is
/// a table that only exists through dotted keys. `existing` is whether such
/// a pseudo-table is there, `None` when nothing is.
pub fn offers_header_key(existing: Option<bool>, at_cursor: bool) -> (r: bool)
    ensures
        r == match existing {
            Some(pseudo) => at_cursor || pseudo,
            None => true,
        },
{
    match existing {
        Some(pseudo) => at_cursor || pseudo,
        None => true,
    }
}

/// Whether an entry completion offers a key: when nothing is at its path yet,
/// or when what is there is a table that only exists through dotted keys.
pub fn offers_entry_key(existing: Option<bool>) -> (r: bool)
    ensures
        r == match existing {
            Some(pseudo) => pseudo,
            None => true,
        },
{
    match existing {
        Some(pseudo) => pseudo,
        None => true,
    }
}

/// A table header candidate: labelled with its full key, which replaces the
/// key typed so far when there is one.
pub fn header_item(full_key: &str, key_range: Option<TextRange>, schema: &JsonValue) -> (r: CompletionItem)
    ensures
        item_view(r) == (
            full_key@,
            None::<Seq<char>>,
            Some(CompletionKind::Struct),
            None::<Seq<char>>,
            spec_schema_docs(*schema),
            spec_flag(*schema, "deprecated"@),
            false,
            None::<Seq<char>>,
            match key_range {
                Some(range) => Some((range, full_key@)),
                None => None,
            },
        ),
{
    let mut item = schema_annotated_item(schema);
    item.label = full_key.to_owned();
    item.kind = Some(CompletionKind::Struct);
    item.text_edit = match key_range {
        Some(range) => Some(TextEdit { range, new_text: full_key.to_owned() }),
        None => None,
    };
    item
}

/// A candidate for a new entry, on an empty line or in an inline table:
/// labelled with its keys, inserting the entry snippet.
pub fn new_entry_item<F: Fn(&JsonValue, bool) -> Option<String>>(
    relative_keys: &str,
    schema: &JsonValue,
    render: &F,
) -> (r: CompletionItem)
    requires
        forall|v: &JsonValue, q: bool| call_requires(*render, (v, q)),
        renders_deterministically(*render),
        json_height(*schema) <= usize::MAX,
    ensures
        item_view(r) == (
            relative_keys@,
            None::<Seq<char>>,
            Some(CompletionKind::Variable),
            None::<Seq<char>>,
            spec_schema_docs(*schema),
            spec_flag(*schema, "deprecated"@),
            true,
            Some(relative_keys@ + " = "@ + spec_default_snippet(*render, *schema, 0, false)),
            None::<(TextRange, Seq<char>)>,
        ),
{
    let mut item = schema_annotated_item(schema);
    item.label = relative_keys.to_owned();
    item.kind = Some(CompletionKind::Variable);
    item.snippet = true;
    item.insert_text = Some(new_entry_snippet(relative_keys, schema, false, render));
    item
}

/// A candidate for keys typed where no entry stands yet: the typed keys,
/// spanning `range`, are replaced by the entry snippet.
pub fn standalone_key_item<F: Fn(&JsonValue, bool) -> Option<String>>(
    relative_keys: &str,
    schema: &JsonValue,
    range: TextRange,
    render: &F,
) -> (r: CompletionItem)
    requires
        forall|v: &JsonValue, q: bool| call_requires(*render, (v, q)),
        renders_deterministically(*render),
        json_height(*schema) <= usize::MAX,
    ensures
        item_view(r) == (
            relative_keys@,
            None::<Seq<char>>,
            Some(CompletionKind::Variable),
            None::<Seq<char>>,
            spec_schema_docs(*schema),
            spec_flag(*schema, "deprecated"@),
            true,
            None::<Seq<char>>,
            Some((range, relative_keys@ + " = "@ + spec_default_snippet(*render, *schema, 0, false))),
        ),
{
    let mut item = schema_annotated_item(schema);
    item.label = relative_keys.to_owned();
    item.kind = Some(CompletionKind::Variable);
    item.snippet = true;
    item.text_edit = Some(
        TextEdit { range, new_text: new_entry_snippet(relative_keys, schema, false, render) },
    );
    item
}

/// The text an entry key candidate inserts: the keys and a space when the
/// entry already has its `=`, else the whole entry snippet.
pub open spec fn entry_key_text<F: Fn(&JsonValue, bool) -> Option<String>>(
    render: F,
    relative_keys: Seq<char>,
    schema: JsonValue,
    has_eq: bool,
) -> Seq<char> {
    if has_eq {
        relative_keys + " "@
    } else {
        relative_keys + " = "@ + spec_default_snippet(render, schema, 0, false)
    }
}

/// A candidate for the keys of an entry being typed: it replaces the key
/// under the cursor when there is one; a snippet unless the entry already
/// has its `=`.
pub fn entry_key_item<F: Fn(&JsonValue, bool) -> Option<String>>(
    relative_keys: &str,
    schema: &JsonValue,
    key_range: Option<TextRange>,
    has_eq: bool,
    render: &F,
) -> (r: CompletionItem)
    requires
        forall|v: &JsonValue, q: bool| call_requires(*render, (v, q)),
        renders_deterministically(*render),
        json_height(*schema) <= usize::MAX,
    ensures
        item_view(r) == (
            relative_keys@,
            None::<Seq<char>>,
            Some(CompletionKind::Variable),
            None::<Seq<char>>,
            spec_schema_docs(*schema),
            spec_flag(*schema, "deprecated"@),
            !has_eq,
            Some(entry_key_text(*render, relative_keys@, *schema, has_eq)),
            match key_range {
                Some(range) => Some((range, entry_key_text(*render, relative_keys@, *schema, has_eq))),
                None => None,
            },
        ),
{
    let text = if has_eq {
        let mut t = relative_keys.to_owned();
        t.append(" ");
        t
    } else {
        new_entry_snippet(relative_keys, schema, false, render)
    };
    let mut item = schema_annotated_item(schema);
    item.label = relative_keys.to_owned();
    item.kind = Some(CompletionKind::Variable);
    item.snippet = !has_eq;
    item.text_edit = match key_range {
        Some(range) => Some(TextEdit { range, new_text: text.clone() }),
        None => None,
    };
    item.insert_text = Some(text);
    item
}

/// Where the cursor stands in a document, as a query of its syntax tree
/// reads it: what it is in, the keys of the node it is at (if any), of the
/// table or array of tables around it, and of the entry it is in.
pub struct CursorFacts {
    pub in_table_header: bool,
    pub in_table_array_header: bool,
    pub empty_line: bool,
    pub in_entry_keys: bool,
    pub in_entry_value: bool,
    pub in_inline_table: bool,
    /// Whether the entry's value stands inline in its parent.
    pub is_inline: bool,
    /// How many keys the header in hand has.
    pub header_key_count: usize,
    pub node_keys: Option<Vec<KeyOrIndex>>,
    pub parent_keys: Vec<KeyOrIndex>,
    pub entry_keys: Vec<KeyOrIndex>,
}

/// What completion offers at the cursor.
#[derive(Clone, Copy, Debug, PartialEq, Eq, Structural)]
pub enum CompletionBranch {
    /// Table headers, of schemas that describe tables.
    TableHeader,
    /// Array-of-tables headers, of schemas of arrays of tables.
    TableArrayHeader,
    /// New entries on an empty line.
    EmptyLine,
    /// The keys of the entry being written.
    EntryKeys,
    /// New entries inside an inline table.
    InlineTableEntry,
    /// Values for the entry.
    EntryValue,
    /// Keys standing alone, replacing what has been typed.
    StandaloneKeys,
}

/// Which completions are offered, the keys whose schemas are collected
/// (looked up in the document before collecting), and how many keys deep
/// below them to collect.
pub struct CompletionPlan {
    pub branch: CompletionBranch,
    pub keys: Vec<KeyOrIndex>,
    pub depth: usize,
}

/// `keys` without its last `n` keys; none where it has no more than `n`.
pub open spec fn without_last(keys: Seq<KeyOrIndex>, n: nat) -> Seq<KeyOrIndex> {
    if n >= keys.len() {
        Seq::empty()
    } else {
        keys.take(keys.len() - n)
    }
}

/// The keys of the node at the cursor, else those of the table around it.
pub open spec fn node_or_parent(f: CursorFacts) -> Seq<KeyOrIndex> {
    match f.node_keys {
        Some(k) => k@,
        None => f.parent_keys@,
    }
}

/// The inputs on which a plan can be made: the depths fit a `usize`, and a
/// cursor in an entry's value is at a node.
pub open spec fn plan_defined(f: CursorFacts, max_keys: nat) -> bool {
    &&& max_keys < usize::MAX
    &&& (f.in_table_header || f.in_table_array_header) ==> f.header_key_count + max_keys + 1 <= usize::MAX
    &&& (!f.in_table_header && !f.in_table_array_header && !f.empty_line && f.in_entry_keys) ==> f.entry_keys@.len()
        + max_keys + 1 <= usize::MAX
    &&& (!f.in_table_header && !f.in_table_array_header && !f.empty_line && !f.in_entry_keys && f.in_entry_value)
        ==> f.node_keys is Some
}

/// The plan for the cursor `f`, with completion looking `max_keys` keys
/// deep: the first context that holds, in the order header, array header,
/// empty line, entry keys, entry value, standalone keys, decides.
pub open spec fn spec_completion_plan(f: CursorFacts, max_keys: nat) -> (CompletionBranch, Seq<KeyOrIndex>, nat) {
    if f.in_table_header {
        (CompletionBranch::TableHeader, Seq::empty(), (f.header_key_count + max_keys + 1) as nat)
    } else if f.in_table_array_header {
        (CompletionBranch::TableArrayHeader, Seq::empty(), (f.header_key_count + max_keys + 1) as nat)
    } else if f.empty_line {
        (CompletionBranch::EmptyLine, f.parent_keys@, max_keys + 1)
    } else if f.in_entry_keys {
        (
            CompletionBranch::EntryKeys,
            without_last(node_or_parent(f), f.entry_keys@.len()),
            f.entry_keys@.len() + max_keys + 1,
        )
    } else if f.in_entry_value {
        if f.in_inline_table {
            (CompletionBranch::InlineTableEntry, f.node_keys->0@, max_keys + 1)
        } else if f.is_inline {
            (CompletionBranch::EntryValue, f.node_keys->0@, max_keys + 1)
        } else {
            (CompletionBranch::EntryValue, f.parent_keys@ + f.entry_keys@, max_keys + 1)
        }
    } else {
        (CompletionBranch::StandaloneKeys, without_last(node_or_parent(f), f.entry_keys@.len()), max_keys + 1)
    }
}

/// The first `n` keys of `keys`, copied.
fn keys_take(keys: &Vec<KeyOrIndex>, n: usize) -> (r: Vec<KeyOrIndex>)
    requires
        n <= keys@.len(),
    ensures
        r@ == keys@.take(n as int),
{
    let mut out: Vec<KeyOrIndex> = Vec::new();
    let mut i: usize = 0;
    while i < n
        invariant
            0 <= i <= n <= keys@.len(),
            out@ == keys@.take(i as int),
        decreases n - i,
    {
        let step = match &keys[i] {
            KeyOrIndex::Key(k) => KeyOrIndex::Key(k.clone()),
            KeyOrIndex::Index(x) => KeyOrIndex::Index(*x),
        };
        assert(step == keys@[i as int]);
        out.push(step);
        i += 1;
        assert(out@ =~= keys@.take(i as int));
    }
    out
}

/// `keys` without its last `n` keys.
fn keys_without_last(keys: &Vec<KeyOrIndex>, n: usize) -> (r: Vec<KeyOrIndex>)
    ensures
        r@ == without_last(keys@, n as nat),
{
    if n >= keys.len() {
        Vec::new()
    } else {
        keys_take(keys, keys.len() - n)
    }
}

/// Decides what completion offers at the cursor `f`, from which keys it
/// collects schemas and how deep, completion looking `max_keys` keys deep.
pub fn completion_plan(f: &CursorFacts, max_keys: usize) -> (r: CompletionPlan)
    requires
        plan_defined(*f, max_keys as nat),
    ensures
        (r.branch, r.keys@, r.depth as nat) == spec_completion_plan(*f, max_keys as nat),
{
    let below = max_keys + 1;
    if f.in_table_header {
        CompletionPlan { branch: CompletionBranch::TableHeader, keys: Vec::new(), depth: f.header_key_count + below }
    } else if f.in_table_array_header {
        CompletionPlan {
            branch: CompletionBranch::TableArrayHeader,
            keys: Vec::new(),
            depth: f.header_key_count + below,
        }
    } else if f.empty_line {
        CompletionPlan { branch: CompletionBranch::EmptyLine, keys: keys_take(&f.parent_keys, f.parent_keys.len()), depth: below }
    } else if f.in_entry_keys {
        let keys = match &f.node_keys {
            Some(k) => keys_without_last(k, f.entry_keys.len()),
            None => keys_without_last(&f.parent_keys, f.entry_keys.len()),
        };
        CompletionPlan { branch: CompletionBranch::EntryKeys, keys, depth: f.entry_keys.len() + below }
    } else if f.in_entry_value {
        let node = match &f.node_keys {
            Some(k) => k,
            None => {
                return CompletionPlan { branch: CompletionBranch::EntryValue, keys: Vec::new(), depth: below };
            },
        };
        if f.in_inline_table {
            CompletionPlan { branch: CompletionBranch::InlineTableEntry, keys: keys_take(node, node.len()), depth: below }
        } else if f.is_inline {
            CompletionPlan { branch: CompletionBranch::EntryValue, keys: keys_take(node, node.len()), depth: below }
        } else {
            let mut keys = keys_take(&f.parent_keys, f.parent_keys.len());
            let mut tail = keys_take(&f.entry_keys, f.entry_keys.len());
            keys.append(&mut tail);
            CompletionPlan { branch: CompletionBranch::EntryValue, keys, depth: below }
        }
    } else {
        let keys = match &f.node_keys {
            Some(k) => keys_without_last(k, f.entry_keys.len()),
            None => keys_without_last(&f.parent_keys, f.entry_keys.len()),
        };
        CompletionPlan { branch: CompletionBranch::StandaloneKeys, keys, depth: below }
    }
}

/// An array-of-tables header is offered for a schema whose `type` is the
/// string `array` exactly when what its `items` declare as their `type` is
/// `object`, `null` or nothing, whether or not an `items` schema is given
/// at all; a schema of any other type is never offered one.
pub proof fn table_arrays_hold_untyped_or_object_items(schema: JsonValue)
    ensures
        spec_str_at(schema, "type"@) != Some("array"@) ==> !spec_is_table_array_schema(schema),
        spec_str_at(schema, "type"@) == Some("array"@) ==> (spec_is_table_array_schema(schema) <==> match spec_get(
            schema,
            "items"@,
        ) {
            None => true,
            Some(items) => match spec_get(items, "type"@) {
                None => true,
                Some(JsonValue::Null) => true,
                Some(t) => spec_as_str(t) == Some("object"@),
            },
        }),
{
}

/// Where a value's schema declares the type `boolean` and no `enum` or
/// `const`, value completion offers both `true` and `false`, whatever else
/// it offers.
pub proof fn booleans_offer_true_and_false<F: Fn(&JsonValue, bool) -> Option<String>>(
    render: F,
    schema: JsonValue,
    range: Option<TextRange>,
    single_quote: bool,
    out: Seq<ItemView>,
)
    requires
        spec_str_at(schema, "type"@) == Some("boolean"@),
        !(spec_index(schema, "enum"@) is Array),
        spec_get(schema, "const"@) is None,
        value_completions_rel(render, schema, range, single_quote, out),
    ensures
        exists|i: int| 0 <= i < out.len() && (#[trigger] out[i]).0 == "true"@,
        exists|j: int| 0 <= j < out.len() && (#[trigger] out[j]).0 == "false"@,
{
    let (dl, lits) = choose|dl: Option<String>, lits: Seq<Option<String>>|
        #![trigger default_lit_ok(render, schema, single_quote, dl), examples_lits_ok(render, schema, single_quote, lits)]
        default_lit_ok(render, schema, single_quote, dl) && examples_lits_ok(render, schema, single_quote, lits)
            && out == default_items(schema, dl, range) + example_items(schema, lits, range, lits.len()) + type_items(
            schema,
            value_type_names(schema),
            range,
            value_type_names(schema).len(),
        );
    reveal_strlit("boolean");
    reveal_strlit("string");
    let names = value_type_names(schema);
    assert(names =~= seq!["boolean"@]);
    let head = default_items(schema, dl, range) + example_items(schema, lits, range, lits.len());
    let tail = type_items_for(schema, "boolean"@, range);
    assert("boolean"@[0] != "string"@[0]);
    assert("boolean"@ != "string"@);
    assert(tail.len() == 2 && tail[0].0 == "true"@ && tail[1].0 == "false"@);
    assert(type_items(schema, names, range, 0) =~= Seq::<ItemView>::empty());
    assert(type_items(schema, names, range, 1) =~= tail);
    assert(out =~= head + tail);
    assert(out[head.len() as int] == tail[0]);
    assert(out[head.len() + 1int] == tail[1]);
}

proof fn lemma_dedup_consecutive_holds(s: Seq<Seq<char>>)
    ensures
        forall|i: int| 0 <= i < s.len() ==> dedup_consecutive(s).contains(#[trigger] s[i]),
        forall|j: int| 0 <= j < dedup_consecutive(s).len() ==> s.contains(#[trigger] dedup_consecutive(s)[j]),
    decreases s.len(),
{
    if s.len() > 0 {
        let p = s.drop_last();
        lemma_dedup_consecutive_holds(p);
        let d = dedup_consecutive(p);
        let r = dedup_consecutive(s);
        assert forall|i: int| 0 <= i < s.len() implies r.contains(#[trigger] s[i]) by {
            if i < s.len() - 1 {
                assert(s[i] == p[i]);
                assert(d.contains(p[i]));
                let w = choose|w: int| 0 <= w < d.len() && d[w] == p[i];
                assert(r[w] == d[w]);
            } else if d.len() > 0 && d.last() == s.last() {
                assert(r[d.len() - 1] == s[i]);
            } else {
                assert(r[d.len() as int] == s[i]);
            }
        }
        assert forall|j: int| 0 <= j < r.len() implies s.contains(#[trigger] r[j]) by {
            if j < d.len() {
                assert(r[j] == d[j]);
                assert(p.contains(d[j]));
                let w = choose|w: int| 0 <= w < p.len() && p[w] == d[j];
                assert(s[w] == p[w]);
            } else {
                assert(r[j] == s[s.len() - 1]);
            }
        }
    }
}

proof fn lemma_string_items_hold(items: Seq<JsonValue>, i: int)
    requires
        0 <= i < items.len(),
        items[i] is String,
    ensures
        string_items(items).contains(items[i]->String_0@),
    decreases items.len(),
{
    let p = items.drop_last();
    if i < items.len() - 1 {
        assert(p[i] == items[i]);
        lemma_string_items_hold(p, i);
        let w = choose|w: int| 0 <= w < string_items(p).len() && string_items(p)[w] == p[i]->String_0@;
        assert(string_items(items)[w] == string_items(p)[w]);
    } else {
        assert(string_items(items)[string_items(p).len() as int] == items[i]->String_0@);
    }
}

/// Whether one of `items` is the string `k`.
pub open spec fn lists_string(items: Seq<JsonValue>, k: Seq<char>) -> bool {
    exists|i: int| 0 <= i < items.len() && is_str(#[trigger] items[i], k)
}

/// The items of the schema's `x-taplo.initKeys` list, when its extension
/// decodes and has one.
pub open spec fn init_key_items(schema: JsonValue) -> Seq<JsonValue> {
    match spec_ext(schema) {
        Some(x) => match spec_index(x, "initKeys"@) {
            JsonValue::Array(items) => items@,
            _ => Seq::empty(),
        },
        None => Seq::empty(),
    }
}

/// The items of the schema's `required` list, when it has one.
pub open spec fn required_items(schema: JsonValue) -> Seq<JsonValue> {
    match spec_index(schema, "required"@) {
        JsonValue::Array(items) => items@,
        _ => Seq::empty(),
    }
}

proof fn lemma_string_items_from(items: Seq<JsonValue>)
    ensures
        forall|j: int| 0 <= j < string_items(items).len() ==> lists_string(items, #[trigger] string_items(items)[j]),
    decreases items.len(),
{
    if items.len() > 0 {
        let p = items.drop_last();
        lemma_string_items_from(p);
        assert forall|j: int| 0 <= j < string_items(items).len() implies lists_string(items, #[trigger] string_items(items)[j]) by {
            if j < string_items(p).len() {
                assert(string_items(items)[j] == string_items(p)[j]);
                assert(lists_string(p, string_items(p)[j]));
                let w = choose|w: int| 0 <= w < p.len() && is_str(#[trigger] p[w], string_items(p)[j]);
                assert(items[w] == p[w]);
            } else {
                assert(is_str(items[items.len() - 1], string_items(items)[j]));
            }
        }
    }
}

/// A new table starts with every key `x-taplo.initKeys` names and every key
/// `required` names, and with no other key.
pub proof fn new_tables_start_with_init_and_required_keys(schema: JsonValue)
    ensures
        forall|k: Seq<char>| #[trigger] lists_string(init_key_items(schema), k) ==> spec_init_keys(schema).contains(k),
        forall|k: Seq<char>| #[trigger] lists_string(required_items(schema), k) ==> spec_init_keys(schema).contains(k),
        forall|j: int|
            0 <= j < spec_init_keys(schema).len() ==> lists_string(init_key_items(schema), #[trigger] spec_init_keys(schema)[j])
                || lists_string(required_items(schema), spec_init_keys(schema)[j]),
{
    let ext: Seq<Seq<char>> = match spec_ext_init_keys(schema) {
        Some(k) => k,
        None => Seq::empty(),
    };
    let req: Seq<Seq<char>> = match spec_index(schema, "required"@) {
        JsonValue::Array(items) => string_items(items@),
        _ => Seq::empty(),
    };
    let s = ext + req;
    let keys = spec_init_keys(schema);
    assert(keys == dedup_consecutive(s));
    lemma_dedup_consecutive_holds(s);
    let ii = init_key_items(schema);
    let ri = required_items(schema);
    lemma_string_items_from(ri);
    assert(req =~= string_items(ri));
    assert(ii.len() == ext.len() && forall|i: int| 0 <= i < ii.len() ==> #[trigger] ii[i] is String && ext[i] == ii[i]->String_0@)
        by {
        if let Some(x) = spec_ext(schema) {
            if let JsonValue::Array(items) = spec_index(x, "initKeys"@) {
                assert(spec_get(x, "initKeys"@) == Some(JsonValue::Array(items)));
                assert(strings_ok(items@));
            }
        }
    }
    assert forall|k: Seq<char>| #[trigger] lists_string(ii, k) implies keys.contains(k) by {
        let i = choose|i: int| 0 <= i < ii.len() && is_str(#[trigger] ii[i], k);
        assert(s[i] == ext[i]);
        assert(s[i] == k);
        assert(keys.contains(s[i]));
    }
    assert forall|k: Seq<char>| #[trigger] lists_string(ri, k) implies keys.contains(k) by {
        let i = choose|i: int| 0 <= i < ri.len() && is_str(#[trigger] ri[i], k);
        lemma_string_items_hold(ri, i);
        let w = choose|w: int| 0 <= w < req.len() && req[w] == ri[i]->String_0@;
        assert(s[ext.len() + w] == req[w]);
        assert(keys.contains(s[ext.len() + w]));
    }
    assert forall|j: int| 0 <= j < keys.len() implies lists_string(ii, #[trigger] keys[j]) || lists_string(ri, keys[j]) by {
        assert(s.contains(keys[j]));
        let w = choose|w: int| 0 <= w < s.len() && s[w] == keys[j];
        if w < ext.len() {
            assert(s[w] == ext[w]);
            assert(is_str(ii[w], keys[j]));
        } else {
            assert(s[w] == req[w - ext.len()]);
            assert(lists_string(ri, string_items(ri)[w - ext.len()]));
        }
    }
}

/// Where a value's schema has no `enum` or `const`, value completion offers
/// the empty value of its declared type: `""` for `string`, `[]` for
/// `array`, and `{ }` for `object` or when it declares no type.
pub proof fn typed_values_offer_their_empty_value<F: Fn(&JsonValue, bool) -> Option<String>>(
    render: F,
    schema: JsonValue,
    range: Option<TextRange>,
    single_quote: bool,
    out: Seq<ItemView>,
)
    requires
        !(spec_index(schema, "enum"@) is Array),
        spec_get(schema, "const"@) is None,
        value_completions_rel(render, schema, range, single_quote, out),
    ensures
        spec_str_at(schema, "type"@) == Some("string"@) ==> exists|i: int|
            0 <= i < out.len() && (#[trigger] out[i]).0 == "\"\""@,
        spec_str_at(schema, "type"@) == Some("array"@) ==> exists|i: int|
            0 <= i < out.len() && (#[trigger] out[i]).0 == "[]"@,
        spec_str_at(schema, "type"@) == Some("object"@) || spec_get(schema, "type"@) is None ==> exists|i: int|
            0 <= i < out.len() && (#[trigger] out[i]).0 == "{ }"@,
{
    let (dl, lits) = choose|dl: Option<String>, lits: Seq<Option<String>>|
        #![trigger default_lit_ok(render, schema, single_quote, dl), examples_lits_ok(render, schema, single_quote, lits)]
        default_lit_ok(render, schema, single_quote, dl) && examples_lits_ok(render, schema, single_quote, lits)
            && out == default_items(schema, dl, range) + example_items(schema, lits, range, lits.len()) + type_items(
            schema,
            value_type_names(schema),
            range,
            value_type_names(schema).len(),
        );
    reveal_strlit("boolean");
    reveal_strlit("string");
    reveal_strlit("array");
    reveal_strlit("object");
    let head = default_items(schema, dl, range) + example_items(schema, lits, range, lits.len());
    let names = value_type_names(schema);
    if names.len() == 1 {
        let tail = type_items_for(schema, names[0], range);
        assert(type_items(schema, names, range, 0) =~= Seq::<ItemView>::empty());
        assert(type_items(schema, names, range, 1) =~= tail);
        assert(out =~= head + tail);
        if tail.len() > 0 {
            assert(out[head.len() as int] == tail[0]);
        }
        assert("string"@[0] != "boolean"@[0] && "string"@[0] != "array"@[0] && "string"@[0] != "object"@[0]);
        assert("array"@[0] != "boolean"@[0] && "array"@[0] != "object"@[0]);
        assert("object"@[0] != "boolean"@[0]);
    }
}


} // verus!
