use vstd::prelude::*;

use crate::facts::{
    opt_facts_view,
    bare_fact, constraint_facts, default_fact, examples_fact, extend_fact, fact_view, fact_views,
    flag, is_deprecated, list_literal_fact_rel, opt_fact, schema_docs,
    single_literal_fact_rel, spec_constraint_facts, spec_flag, spec_schema_docs, str_at,
    subschema_facts, subschema_facts_rel,
};
use crate::ext::{opt_chars, opt_strs, schema_ext_of, spec_ext, spec_ext_enum_values, spec_ext_str};
use crate::json::{json_eq, json_equals, spec_get, spec_index, spec_str_at, JsonValue};
use crate::schema::KeyOrIndex;
use crate::syntax::{is_primitive, spec_is_primitive, SyntaxKind};
use crate::markdown::{
    lemma_strs_push, code_span, join, join_strings, non_empty, retain_non_empty, spec_code_span, strs,
};

verus! {

/// A labelled hover line: `Default` with one value, `Examples` with several,
/// `Read-only` with none.
#[derive(Debug)]
pub struct Fact {
    pub label: &'static str,
    /// Rendered values: TOML literals, comparisons, regular expressions and
    /// format names. `HoverSections::render` fences each as a code span, so a
    /// contributor never writes a backtick itself.
    pub values: Vec<String>,
}

/// A subschema a schema names in a role that is not "the value here": a
/// prohibition, a rule for key names, a rule some element must satisfy.
#[derive(Debug)]
pub struct NestedFacts {
    pub label: &'static str,
    pub facts: Vec<Fact>,
}

/// One schema's hover text, assembled from independent contributors so that a
/// keyword with nothing to say adds no separator.
#[derive(Debug)]
pub struct HoverSections {
    /// Whole-key notices, rendered above the documentation.
    pub banners: Vec<String>,
    /// Prose documentation for the key.
    pub docs: Option<String>,
    /// One line per keyword that carries a concrete value or constraint.
    pub facts: Vec<Fact>,
    /// One labelled block per subschema whose role is not "the value here",
    /// rendered beneath the flat facts.
    pub nested: Vec<NestedFacts>,
}

impl Default for HoverSections {
    fn default() -> (h: HoverSections)
        ensures
            h.banners@.len() == 0,
            h.docs is None,
            h.facts@.len() == 0,
            h.nested@.len() == 0,
    {
        HoverSections { banners: Vec::new(), docs: None, facts: Vec::new(), nested: Vec::new() }
    }
}

/// One bullet for a fact: `<indent>- <label>`, followed by `: ` and the
/// values as code spans joined by `, ` when it has any.
pub open spec fn spec_fact_line(fact: Fact, indent: Seq<char>) -> Seq<char> {
    let head = indent + "- "@ + fact.label@;
    if fact.values@.len() == 0 {
        head
    } else {
        head + ": "@ + join(
            strs(fact.values@).map_values(|v: Seq<char>| spec_code_span(v)),
            ", "@,
        )
    }
}

/// One bullet per fact, at the given indent.
pub open spec fn fact_lines(facts: Seq<Fact>, indent: Seq<char>) -> Seq<Seq<char>> {
    facts.map_values(|f: Fact| spec_fact_line(f, indent))
}

/// For each nested block, a bullet naming it followed by its facts indented
/// beneath it.
pub open spec fn nested_lines(nested: Seq<NestedFacts>) -> Seq<Seq<char>>
    decreases nested.len(),
{
    if nested.len() == 0 {
        Seq::empty()
    } else {
        nested_lines(nested.drop_last()) + seq!["- "@ + nested.last().label@] + fact_lines(
            nested.last().facts@,
            "  "@,
        )
    }
}

/// The hover text: banners, then the documentation, then one bullet list of
/// the facts and nested blocks (present when there is any), each block
/// separated from the next by a blank line and empty blocks left out.
pub open spec fn spec_render(h: HoverSections) -> Seq<char> {
    let docs: Seq<Seq<char>> = match h.docs {
        Some(d) => seq![d@],
        None => Seq::empty(),
    };
    let list: Seq<Seq<char>> = if h.facts@.len() > 0 || h.nested@.len() > 0 {
        seq![join(fact_lines(h.facts@, Seq::empty()) + nested_lines(h.nested@), "\n"@)]
    } else {
        Seq::empty()
    };
    join(non_empty(strs(h.banners@) + docs + list), "\n\n"@)
}

/// One bullet for a fact, indented for a nested block.
pub fn fact_line(fact: &Fact, indent: &str) -> (r: String)
    ensures
        r@ == spec_fact_line(*fact, indent@),
{
    let mut r = String::new();
    r.append(indent);
    r.append("- ");
    r.append(fact.label);
    if fact.values.len() == 0 {
        return r;
    }
    r.append(": ");
    let mut spans: Vec<String> = Vec::new();
    let mut i: usize = 0;
    while i < fact.values.len()
        invariant
            0 <= i <= fact.values@.len(),
            strs(spans@) == strs(fact.values@).take(i as int).map_values(
                |v: Seq<char>| spec_code_span(v),
            ),
        decreases fact.values@.len() - i,
    {
        let span = code_span(fact.values[i].as_str());
        let ghost old_spans = spans@;
        spans.push(span);
        proof {
            lemma_strs_push(old_spans, span);
        }
        i += 1;
        assert(strs(spans@) =~= strs(fact.values@).take(i as int).map_values(
            |v: Seq<char>| spec_code_span(v),
        ));
    }
    assert(strs(fact.values@).take(i as int) =~= strs(fact.values@));
    let joined = join_strings(&spans, ", ");
    r.append(joined.as_str());
    r
}

impl HoverSections {
    /// The hover text these sections render to.
    pub fn render(&self) -> (r: String)
        ensures
            r@ == spec_render(*self),
    {
        let mut blocks: Vec<String> = Vec::new();
        let mut i: usize = 0;
        while i < self.banners.len()
            invariant
                0 <= i <= self.banners@.len(),
                strs(blocks@) == strs(self.banners@).take(i as int),
            decreases self.banners@.len() - i,
        {
            let ghost old_blocks = blocks@;
            let b = self.banners[i].clone();
            blocks.push(b);
            proof {
                lemma_strs_push(old_blocks, b);
            }
            i += 1;
            assert(strs(blocks@) =~= strs(self.banners@).take(i as int));
        }
        assert(strs(self.banners@).take(i as int) =~= strs(self.banners@));
        let ghost before_docs = strs(blocks@);
        match &self.docs {
            Some(d) => {
                let ghost old_blocks = blocks@;
                let dc = d.clone();
                blocks.push(dc);
                proof {
                    lemma_strs_push(old_blocks, dc);
                }
            },
            None => {},
        }
        let ghost docs: Seq<Seq<char>> = match &self.docs {
            Some(d) => seq![d@],
            None => Seq::empty(),
        };
        assert(strs(blocks@) =~= before_docs + docs);
        let ghost before_list = strs(blocks@);
        if self.facts.len() > 0 || self.nested.len() > 0 {
            let mut lines: Vec<String> = Vec::new();
            let mut j: usize = 0;
            while j < self.facts.len()
                invariant
                    0 <= j <= self.facts@.len(),
                    strs(lines@) == fact_lines(self.facts@.take(j as int), Seq::empty()),
                decreases self.facts@.len() - j,
            {
                proof {
                    reveal_strlit("");
                }
                let line = fact_line(&self.facts[j], "");
                let ghost old_lines = lines@;
                lines.push(line);
                proof {
                    lemma_strs_push(old_lines, line);
                }
                j += 1;
                assert(strs(lines@) =~= fact_lines(self.facts@.take(j as int), Seq::empty()));
            }
            assert(self.facts@.take(j as int) =~= self.facts@);
            let ghost flat = strs(lines@);
            let mut k: usize = 0;
            while k < self.nested.len()
                invariant
                    0 <= k <= self.nested@.len(),
                    strs(lines@) == flat + nested_lines(self.nested@.take(k as int)),
                decreases self.nested@.len() - k,
            {
                let nested = &self.nested[k];
                assert(self.nested@.take(k + 1).drop_last() =~= self.nested@.take(k as int));
                let ghost before = strs(lines@);
                let mut head = "- ".to_owned();
                head.append(nested.label);
                let ghost old_lines = lines@;
                lines.push(head);
                proof {
                    lemma_strs_push(old_lines, head);
                }
                let mut m: usize = 0;
                while m < nested.facts.len()
                    invariant
                        0 <= m <= nested.facts@.len(),
                        strs(lines@) == before + seq!["- "@ + nested.label@] + fact_lines(
                            nested.facts@.take(m as int),
                            "  "@,
                        ),
                    decreases nested.facts@.len() - m,
                {
                    let line = fact_line(&nested.facts[m], "  ");
                    let ghost old_lines = lines@;
                    lines.push(line);
                    proof {
                        lemma_strs_push(old_lines, line);
                    }
                    m += 1;
                    assert(strs(lines@) =~= before + seq!["- "@ + nested.label@] + fact_lines(
                        nested.facts@.take(m as int),
                        "  "@,
                    ));
                }
                assert(nested.facts@.take(m as int) =~= nested.facts@);
                k += 1;
                assert(strs(lines@) =~= flat + nested_lines(self.nested@.take(k as int)));
            }
            assert(self.nested@.take(k as int) =~= self.nested@);
            let list = join_strings(&lines, "\n");
            let ghost old_blocks = blocks@;
            blocks.push(list);
            proof {
                lemma_strs_push(old_blocks, list);
            }
        }
        let ghost list: Seq<Seq<char>> = if self.facts@.len() > 0 || self.nested@.len() > 0 {
            seq![join(fact_lines(self.facts@, Seq::empty()) + nested_lines(self.nested@), "\n"@)]
        } else {
            Seq::empty()
        };
        assert(strs(blocks@) =~= before_list + list);
        let kept = retain_non_empty(blocks);
        join_strings(&kept, "\n\n")
    }
}


/// The link `x-taplo.links.key` gives for a key.
pub open spec fn spec_ext_key_link(schema: JsonValue) -> Option<Seq<char>> {
    spec_ext_str(schema, "links"@, "key"@)
}

/// The text a link to a key's documentation shows: the schema's title, or
/// `...` without one.
pub open spec fn spec_link_title(schema: JsonValue) -> Seq<char> {
    match spec_str_at(schema, "title"@) {
        Some(t) => t,
        None => "..."@,
    }
}

/// The banners above a key's documentation: a markdown link to the key's
/// documentation when links are shown in hover and the schema gives one, then
/// a notice when the key is deprecated.
pub open spec fn spec_banners(schema: JsonValue, links_in_hover: bool) -> Seq<Seq<char>> {
    let link: Seq<Seq<char>> = match spec_ext_key_link(schema) {
        Some(l) => if links_in_hover {
            seq!["["@ + spec_link_title(schema) + "]("@ + l + ")"@]
        } else {
            Seq::empty()
        },
        None => Seq::empty(),
    };
    let deprecated: Seq<Seq<char>> = if spec_flag(schema, "deprecated"@) {
        seq!["> **Deprecated**"@]
    } else {
        Seq::empty()
    };
    link + deprecated
}

/// The access notices: read-only, then write-only, each as a bare fact.
pub open spec fn spec_access_facts(schema: JsonValue) -> Seq<(Seq<char>, Seq<Seq<char>>)> {
    (if spec_flag(schema, "readOnly"@) {
        seq![("Read-only"@, Seq::<Seq<char>>::empty())]
    } else {
        Seq::empty()
    }) + (if spec_flag(schema, "writeOnly"@) {
        seq![("Write-only"@, Seq::<Seq<char>>::empty())]
    } else {
        Seq::empty()
    })
}

/// A nested block as a reader sees it: its label and its facts.
pub open spec fn nested_view(n: NestedFacts) -> (Seq<char>, Seq<(Seq<char>, Seq<Seq<char>>)>) {
    (n.label@, fact_views(n.facts@))
}

/// The views of nested blocks, in order.
pub open spec fn nested_views(n: Seq<NestedFacts>) -> Seq<(Seq<char>, Seq<(Seq<char>, Seq<Seq<char>>)>)> {
    n.map_values(|b: NestedFacts| nested_view(b))
}

/// A labelled block when there are facts for it, as a sequence of zero or one.
pub open spec fn opt_nested(label: Seq<char>, facts: Option<Seq<(Seq<char>, Seq<Seq<char>>)>>) -> Seq<
    (Seq<char>, Seq<(Seq<char>, Seq<Seq<char>>)>),
> {
    match facts {
        Some(f) => seq![(label, f)],
        None => Seq::empty(),
    }
}

/// Everything hover shows for a key from one schema: the banners, the
/// documentation, the default, the examples, the constraints and the access
/// notices as facts, and one labelled block for each of `not`,
/// `propertyNames` and `contains` that has facts to show.
pub open spec fn key_hover_rel<F: Fn(&JsonValue) -> Option<String>>(
    render: F,
    schema: JsonValue,
    links_in_hover: bool,
    h: HoverSections,
) -> bool {
    &&& strs(h.banners@) == spec_banners(schema, links_in_hover)
    &&& opt_chars(h.docs) == spec_schema_docs(schema)
    &&& exists|d: Option<(Seq<char>, Seq<Seq<char>>)>, ex: Option<(Seq<char>, Seq<Seq<char>>)>|
        #![trigger single_literal_fact_rel(render, schema, "default"@, "Default"@, true, d), list_literal_fact_rel(render, schema, "examples"@, "Examples"@, ex)]
        single_literal_fact_rel(render, schema, "default"@, "Default"@, true, d)
            && list_literal_fact_rel(render, schema, "examples"@, "Examples"@, ex) && fact_views(
            h.facts@,
        ) == opt_fact(d) + opt_fact(ex) + spec_constraint_facts(schema) + spec_access_facts(
            schema,
        )
    &&& exists|
        n1: Option<Seq<(Seq<char>, Seq<Seq<char>>)>>,
        n2: Option<Seq<(Seq<char>, Seq<Seq<char>>)>>,
        n3: Option<Seq<(Seq<char>, Seq<Seq<char>>)>>,
    |
        #![trigger subschema_facts_rel(render, spec_index(schema, "not"@), n1), subschema_facts_rel(render, spec_index(schema, "propertyNames"@), n2), subschema_facts_rel(render, spec_index(schema, "contains"@), n3)]
        subschema_facts_rel(render, spec_index(schema, "not"@), n1) && subschema_facts_rel(
            render,
            spec_index(schema, "propertyNames"@),
            n2,
        ) && subschema_facts_rel(render, spec_index(schema, "contains"@), n3) && nested_views(
            h.nested@,
        ) == opt_nested("Must not match"@, n1) + opt_nested("Key names"@, n2) + opt_nested(
            "Contains"@,
            n3,
        )
}

/// Appends the block labelled `label` for the member `keyword` when it has
/// facts to show.
fn push_nested<F: Fn(&JsonValue) -> Option<String>>(
    nested: &mut Vec<NestedFacts>,
    schema: &JsonValue,
    label: &'static str,
    keyword: &str,
    render: &F,
) -> (out: Ghost<Option<Seq<(Seq<char>, Seq<Seq<char>>)>>>)
    requires
        forall|v: &JsonValue| call_requires(*render, (v,)),
    ensures
        subschema_facts_rel(*render, spec_index(*schema, keyword@), out@),
        nested_views(final(nested)@) == nested_views(old(nested)@) + opt_nested(label@, out@),
{
    let facts = match schema.get(keyword) {
        Some(sub) => subschema_facts(sub, render),
        None => {
            let null = JsonValue::Null;
            subschema_facts(&null, render)
        },
    };
    let ghost out = opt_facts_view(facts);
    match facts {
        Some(facts) => {
            let ghost before = nested@;
            let block = NestedFacts { label, facts };
            nested.push(block);
            assert(nested_views(nested@) =~= nested_views(before) + opt_nested(label@, out));
        },
        None => {
            assert(nested_views(nested@) =~= nested_views(old(nested)@) + opt_nested(label@, out));
        },
    }
    Ghost(out)
}

/// Collects everything hover shows for a key from one schema.
pub fn key_hover_sections<F: Fn(&JsonValue) -> Option<String>>(
    schema: &JsonValue,
    links_in_hover: bool,
    render: &F,
) -> (r: HoverSections)
    requires
        forall|v: &JsonValue| call_requires(*render, (v,)),
    ensures
        key_hover_rel(*render, *schema, links_in_hover, r),
{
    let mut banners: Vec<String> = Vec::new();
    assert(strs(banners@) =~= Seq::<Seq<char>>::empty());
    if links_in_hover {
        let link = match schema_ext_of(schema) {
            Some(ext) => match ext.links {
                Some(links) => links.key,
                None => None,
            },
            None => None,
        };
        if let Some(link) = link {
            let title = match str_at(schema, "title") {
                Some(t) => t,
                None => "...",
            };
            let mut banner = "[".to_owned();
            banner.append(title);
            banner.append("](");
            banner.append(link.as_str());
            banner.append(")");
            banners.push(banner);
            assert(strs(banners@) =~= seq![banner@]);
        }
    }
    let ghost link_banners = strs(banners@);
    if is_deprecated(schema) {
        let ghost before = banners@;
        let notice = "> **Deprecated**".to_owned();
        banners.push(notice);
        proof {
            lemma_strs_push(before, notice);
        }
    }
    assert(strs(banners@) =~= spec_banners(*schema, links_in_hover));
    let docs = schema_docs(schema);
    let mut facts: Vec<Fact> = Vec::new();
    assert(fact_views(facts@) =~= Seq::empty());
    let d = default_fact(schema, render);
    let ghost dv = crate::facts::opt_view(d);
    extend_fact(&mut facts, d);
    let ex = examples_fact(schema, render);
    let ghost exv = crate::facts::opt_view(ex);
    extend_fact(&mut facts, ex);
    let ghost before_constraints = fact_views(facts@);
    let mut constraints = constraint_facts(schema);
    facts.append(&mut constraints);
    assert(fact_views(facts@) =~= before_constraints + spec_constraint_facts(*schema));
    let ghost before_access = fact_views(facts@);
    if flag(schema, "readOnly") {
        extend_fact(&mut facts, Some(bare_fact("Read-only")));
    }
    let ghost mid_access = fact_views(facts@);
    if flag(schema, "writeOnly") {
        extend_fact(&mut facts, Some(bare_fact("Write-only")));
    }
    assert(fact_views(facts@) =~= before_access + spec_access_facts(*schema));
    assert(fact_views(facts@) =~= opt_fact(dv) + opt_fact(exv) + spec_constraint_facts(*schema)
        + spec_access_facts(*schema));
    let mut nested: Vec<NestedFacts> = Vec::new();
    assert(nested_views(nested@) =~= Seq::empty());
    let Ghost(n1) = push_nested(&mut nested, schema, "Must not match", "not", render);
    let Ghost(n2) = push_nested(&mut nested, schema, "Key names", "propertyNames", render);
    let Ghost(n3) = push_nested(&mut nested, schema, "Contains", "contains", render);
    assert(nested_views(nested@) =~= opt_nested("Must not match"@, n1) + opt_nested(
        "Key names"@,
        n2,
    ) + opt_nested("Contains"@, n3));
    HoverSections { banners, docs, facts, nested }
}


/// The hover text for a key: each schema's sections rendered, the empty
/// ones left out, separated by a horizontal rule; nothing when all are empty.
pub open spec fn key_hover_content_rel<F: Fn(&JsonValue) -> Option<String>>(
    render: F,
    schemas: Seq<JsonValue>,
    links_in_hover: bool,
    out: Option<Seq<char>>,
) -> bool {
    exists|hs: Seq<HoverSections>|
        #![trigger hs.len()]
        hs.len() == schemas.len() && (forall|i: int|
            0 <= i < hs.len() ==> key_hover_rel(render, schemas[i], links_in_hover, #[trigger] hs[i]))
            && out == content_or_none(
            join(non_empty(hs.map_values(|h: HoverSections| spec_render(h))), "\n\n---\n\n"@),
        )
}

/// `content`, or nothing when it is empty.
pub open spec fn content_or_none(content: Seq<char>) -> Option<Seq<char>> {
    if content.len() > 0 {
        Some(content)
    } else {
        None
    }
}

/// The hover text for a key described by `schemas`.
pub fn key_hover_content<F: Fn(&JsonValue) -> Option<String>>(
    schemas: &Vec<JsonValue>,
    links_in_hover: bool,
    render: &F,
) -> (r: Option<String>)
    requires
        forall|v: &JsonValue| call_requires(*render, (v,)),
    ensures
        key_hover_content_rel(*render, schemas@, links_in_hover, opt_chars(r)),
{
    let mut rendered: Vec<String> = Vec::new();
    let ghost mut hs: Seq<HoverSections> = Seq::empty();
    let mut i: usize = 0;
    while i < schemas.len()
        invariant
            0 <= i <= schemas@.len(),
            forall|v: &JsonValue| call_requires(*render, (v,)),
            hs.len() == i,
            forall|k: int| 0 <= k < i ==> key_hover_rel(*render, schemas@[k], links_in_hover, #[trigger] hs[k]),
            strs(rendered@) == hs.map_values(|h: HoverSections| spec_render(h)),
        decreases schemas@.len() - i,
    {
        let sections = key_hover_sections(&schemas[i], links_in_hover, render);
        let text = sections.render();
        let ghost before = rendered@;
        rendered.push(text);
        proof {
            lemma_strs_push(before, text);
            hs = hs.push(sections);
            assert(hs.map_values(|h: HoverSections| spec_render(h)) =~= strs(rendered@));
        }
        i += 1;
    }
    let kept = retain_non_empty(rendered);
    let content = join_strings(&kept, "\n\n---\n\n");
    if content.as_str().unicode_len() == 0 {
        return None;
    }
    Some(content)
}

/// The first position at or after `i` where the enum holds a value equal to
/// `value` and the documentation list has an entry for it.
pub open spec fn documented_enum_index(
    items: Seq<JsonValue>,
    value: JsonValue,
    docs: Seq<Option<Seq<char>>>,
    i: nat,
) -> Option<nat>
    decreases items.len() - i,
{
    if i >= items.len() {
        None
    } else if json_eq(items[i as int], value) && i < docs.len() && docs[i as int] is Some {
        Some(i)
    } else {
        documented_enum_index(items, value, docs, i + 1)
    }
}

/// The documentation an enum value carries, linked when links are shown in
/// hover and the schema links that value.
pub open spec fn spec_enum_value_doc(schema: JsonValue, value: JsonValue, links_in_hover: bool) -> Option<Seq<char>> {
    let docs = spec_ext_enum_values(schema, "docs"@);
    let links = spec_ext_enum_values(schema, "links"@);
    if docs.len() == 0 {
        None
    } else {
        match spec_index(schema, "enum"@) {
            JsonValue::Array(items) => match documented_enum_index(items@, value, docs, 0) {
                Some(idx) => {
                    let doc = docs[idx as int]->0;
                    if links_in_hover && idx < links.len() && links[idx as int] is Some {
                        Some("["@ + spec_link_title(schema) + "]("@ + links[idx as int]->0 + ")\n\n"@ + doc)
                    } else {
                        Some(doc)
                    }
                },
                None => None,
            },
            _ => None,
        }
    }
}

/// The documentation `x-taplo.docs.<field>` gives when the member `keyword`
/// is present and equal to `value`.
pub open spec fn spec_matching_value_doc(schema: JsonValue, value: JsonValue, field: Seq<char>, keyword: Seq<char>) -> Option<Seq<char>> {
    match (spec_ext_str(schema, "docs"@, field), spec_get(schema, keyword)) {
        (Some(docs), Some(v)) => if json_eq(value, v) {
            Some(docs)
        } else {
            None
        },
        _ => None,
    }
}

/// What hovering a value shows from one schema: the documentation of the
/// matching enum value, else that of a matching default, else that of a
/// matching const, else the schema's documentation, else its title, else
/// nothing.
pub open spec fn spec_value_doc(schema: JsonValue, value: JsonValue, links_in_hover: bool) -> Seq<char> {
    match spec_enum_value_doc(schema, value, links_in_hover) {
        Some(d) => d,
        None => match spec_matching_value_doc(schema, value, "defaultValue"@, "default"@) {
            Some(d) => d,
            None => match spec_matching_value_doc(schema, value, "constValue"@, "const"@) {
                Some(d) => d,
                None => match spec_schema_docs(schema) {
                    Some(d) => d,
                    None => match spec_str_at(schema, "title"@) {
                        Some(t) => t,
                        None => Seq::empty(),
                    },
                },
            },
        },
    }
}

/// The documentation of the enum value equal to `value`, if documented.
fn enum_value_doc(schema: &JsonValue, value: &JsonValue, links_in_hover: bool) -> (r: Option<String>)
    ensures
        opt_chars(r) == spec_enum_value_doc(*schema, *value, links_in_hover),
{
    let ext = schema_ext_of(schema);
    let (docs, links): (Vec<Option<String>>, Vec<Option<String>>) = match ext {
        Some(e) => {
            let d = match e.docs {
                Some(d) => match d.enum_values {
                    Some(v) => v,
                    None => Vec::new(),
                },
                None => Vec::new(),
            };
            let l = match e.links {
                Some(l) => match l.enum_values {
                    Some(v) => v,
                    None => Vec::new(),
                },
                None => Vec::new(),
            };
            (d, l)
        },
        None => (Vec::new(), Vec::new()),
    };
    assert(opt_strs(docs@) =~= spec_ext_enum_values(*schema, "docs"@));
    assert(opt_strs(links@) =~= spec_ext_enum_values(*schema, "links"@));
    if docs.len() == 0 {
        return None;
    }
    let items = match schema.get("enum") {
        Some(JsonValue::Array(items)) => items,
        _ => return None,
    };
    let ghost ds = opt_strs(docs@);
    let mut i: usize = 0;
    while i < items.len()
        invariant
            0 <= i <= items@.len(),
            ds == opt_strs(docs@),
            ds == spec_ext_enum_values(*schema, "docs"@),
            opt_strs(links@) == spec_ext_enum_values(*schema, "links"@),
            docs@.len() > 0,
            spec_index(*schema, "enum"@) == JsonValue::Array(*items),
            documented_enum_index(items@, *value, ds, 0) == documented_enum_index(items@, *value, ds, i as nat),
        decreases items@.len() - i,
    {
        if json_equals(&items[i], value) && i < docs.len() {
            match &docs[i] {
                Some(doc) => {
                    assert(ds[i as int] == Some(doc@));
                    assert(documented_enum_index(items@, *value, ds, i as nat) == Some(i as nat));
                    if links_in_hover && i < links.len() {
                        match &links[i] {
                            Some(link) => {
                                assert(opt_strs(links@)[i as int] == Some(link@));
                                let title = match str_at(schema, "title") {
                                    Some(t) => t,
                                    None => "...",
                                };
                                let mut out = "[".to_owned();
                                out.append(title);
                                out.append("](");
                                out.append(link.as_str());
                                out.append(")\n\n");
                                out.append(doc.as_str());
                                return Some(out);
                            },
                            None => {},
                        }
                    }
                    return Some(doc.clone());
                },
                None => {},
            }
        }
        i += 1;
    }
    None
}

/// The documentation `x-taplo.docs.<field>` gives when the member `keyword`
/// is present and equal to `value`.
fn matching_value_doc(schema: &JsonValue, value: &JsonValue, field: &str, keyword: &str) -> (r: Option<String>)
    requires
        field@ == "defaultValue"@ || field@ == "constValue"@,
    ensures
        opt_chars(r) == spec_matching_value_doc(*schema, *value, field@, keyword@),
{
    let docs = match schema_ext_of(schema) {
        Some(e) => match e.docs {
            Some(d) => if crate::text::str_equals(field, "defaultValue") {
                d.default_value
            } else {
                d.const_value
            },
            None => None,
        },
        None => None,
    };
    let docs = match docs {
        Some(d) => d,
        None => return None,
    };
    match schema.get(keyword) {
        Some(v) => if json_equals(value, v) {
            Some(docs)
        } else {
            None
        },
        None => None,
    }
}

/// What hovering a value shows from one schema.
pub fn value_doc(schema: &JsonValue, value: &JsonValue, links_in_hover: bool) -> (r: String)
    ensures
        r@ == spec_value_doc(*schema, *value, links_in_hover),
{
    if let Some(d) = enum_value_doc(schema, value, links_in_hover) {
        return d;
    }
    if let Some(d) = matching_value_doc(schema, value, "defaultValue", "default") {
        return d;
    }
    if let Some(d) = matching_value_doc(schema, value, "constValue", "const") {
        return d;
    }
    if let Some(d) = schema_docs(schema) {
        return d;
    }
    match str_at(schema, "title") {
        Some(t) => t.to_owned(),
        None => String::new(),
    }
}

/// The hover text for a value: each schema's value documentation, one per
/// line, or nothing when that is empty.
pub open spec fn spec_value_hover_content(schemas: Seq<JsonValue>, value: JsonValue, links_in_hover: bool) -> Option<Seq<char>> {
    content_or_none(join(schemas.map_values(|s: JsonValue| spec_value_doc(s, value, links_in_hover)), "\n"@))
}

/// The hover text for a value described by `schemas`.
pub fn value_hover_content(schemas: &Vec<JsonValue>, value: &JsonValue, links_in_hover: bool) -> (r: Option<String>)
    ensures
        opt_chars(r) == spec_value_hover_content(schemas@, *value, links_in_hover),
{
    let mut docs: Vec<String> = Vec::new();
    let mut i: usize = 0;
    while i < schemas.len()
        invariant
            0 <= i <= schemas@.len(),
            strs(docs@) == schemas@.take(i as int).map_values(|s: JsonValue| spec_value_doc(s, *value, links_in_hover)),
        decreases schemas@.len() - i,
    {
        let d = value_doc(&schemas[i], value, links_in_hover);
        let ghost before = docs@;
        docs.push(d);
        proof {
            lemma_strs_push(before, d);
        }
        i += 1;
        assert(strs(docs@) =~= schemas@.take(i as int).map_values(|s: JsonValue| spec_value_doc(s, *value, links_in_hover)));
    }
    assert(schemas@.take(i as int) =~= schemas@);
    let content = join_strings(&docs, "\n");
    if content.as_str().unicode_len() == 0 {
        return None;
    }
    Some(content)
}

/// Which token around the cursor a hover describes.
#[derive(Clone, Copy, Debug, PartialEq, Eq, Structural)]
pub enum HoverSide {
    Before,
    After,
}

/// Whether a token of this kind is one a hover describes: a key or a value.
pub open spec fn describable(kind: Option<SyntaxKind>) -> bool {
    match kind {
        Some(k) => k == SyntaxKind::IDENT || spec_is_primitive(k),
        None => false,
    }
}

/// Which token a hover describes: the one before the cursor when it is a key
/// or a value, else the one after it when that is, else none.
pub fn hover_side(before: Option<SyntaxKind>, after: Option<SyntaxKind>) -> (r: Option<HoverSide>)
    ensures
        r == if describable(before) {
            Some(HoverSide::Before)
        } else if describable(after) {
            Some(HoverSide::After)
        } else {
            None
        },
{
    let is_describable = |kind: Option<SyntaxKind>| -> (b: bool)
        ensures
            b == describable(kind),
        {
            match kind {
                Some(k) => k == SyntaxKind::IDENT || is_primitive(k),
                None => false,
            }
        };
    if is_describable(before) {
        Some(HoverSide::Before)
    } else if is_describable(after) {
        Some(HoverSide::After)
    } else {
        None
    }
}

/// `keys` without the positions that end it: a key hover describes an array,
/// not its item.
pub open spec fn without_trailing_indices(keys: Seq<KeyOrIndex>) -> Seq<KeyOrIndex>
    decreases keys.len(),
{
    if keys.len() > 0 && keys.last() is Index {
        without_trailing_indices(keys.drop_last())
    } else {
        keys
    }
}

/// Drops the positions that end a key path, so that a key hover describes
/// the array itself rather than its item type.
pub fn array_itself(keys: &mut Vec<KeyOrIndex>)
    ensures
        final(keys)@ == without_trailing_indices(old(keys)@),
{
    while keys.len() > 0 && matches!(keys[keys.len() - 1], KeyOrIndex::Index(_))
        invariant
            without_trailing_indices(keys@) == without_trailing_indices(old(keys)@),
        decreases keys@.len(),
    {
        let ghost before = keys@;
        let _ = keys.pop();
        assert(keys@ =~= before.drop_last());
    }
}

/// Hovering a key whose schema links it (`x-taplo.links.key`), with links
/// shown in hover, puts the link first among the banners: a markdown link
/// titled with the schema's `title`, or `...` without one.
pub proof fn linked_keys_show_their_link_first<F: Fn(&JsonValue) -> Option<String>>(
    render: F,
    schema: JsonValue,
    h: HoverSections,
    x: JsonValue,
    l: Seq<char>,
)
    requires
        key_hover_rel(render, schema, true, h),
        spec_ext(schema) == Some(x),
        spec_str_at(spec_index(x, "links"@), "key"@) == Some(l),
    ensures
        h.banners@.len() >= 1,
        h.banners@[0]@ == "["@ + (match spec_str_at(schema, "title"@) {
            Some(t) => t,
            None => "..."@,
        }) + "]("@ + l + ")"@,
{
    let b = spec_banners(schema, true);
    assert(spec_ext_key_link(schema) == Some(l));
    let banner = "["@ + spec_link_title(schema) + "]("@ + l + ")"@;
    let deprecated: Seq<Seq<char>> = if spec_flag(schema, "deprecated"@) {
        seq!["> **Deprecated**"@]
    } else {
        Seq::empty()
    };
    assert(b == seq![banner] + deprecated);
    assert(b.len() >= 1 && b[0] == banner);
    assert(strs(h.banners@) == b);
    assert(strs(h.banners@).len() == h.banners@.len());
    assert(strs(h.banners@)[0] == h.banners@[0]@);
}

/// Hovering a value equal to the schema's `default`, under a schema with no
/// `enum`, shows the documentation `x-taplo.docs.defaultValue` gives.
pub proof fn a_default_value_shows_its_documentation(
    schema: JsonValue,
    value: JsonValue,
    links_in_hover: bool,
    x: JsonValue,
    d: Seq<char>,
    default: JsonValue,
)
    requires
        spec_get(schema, "enum"@) is None,
        spec_ext(schema) == Some(x),
        spec_str_at(spec_index(x, "docs"@), "defaultValue"@) == Some(d),
        spec_get(schema, "default"@) == Some(default),
        json_eq(value, default),
    ensures
        spec_value_doc(schema, value, links_in_hover) == d,
{
}

/// Hovering a value equal to the schema's `const`, under a schema with no
/// `enum` and no documented default it equals, shows the documentation
/// `x-taplo.docs.constValue` gives.
pub proof fn a_const_value_shows_its_documentation(
    schema: JsonValue,
    value: JsonValue,
    links_in_hover: bool,
    x: JsonValue,
    d: Seq<char>,
    c: JsonValue,
)
    requires
        spec_get(schema, "enum"@) is None,
        spec_get(schema, "default"@) is None,
        spec_ext(schema) == Some(x),
        spec_str_at(spec_index(x, "docs"@), "constValue"@) == Some(d),
        spec_get(schema, "const"@) == Some(c),
        json_eq(value, c),
    ensures
        spec_value_doc(schema, value, links_in_hover) == d,
{
}

/// Hovering a value under a schema with no `enum`, `default` or `const`
/// shows the schema's documentation, else its title, else nothing.
pub proof fn an_undocumented_value_shows_the_schema_documentation(
    schema: JsonValue,
    value: JsonValue,
    links_in_hover: bool,
)
    requires
        spec_get(schema, "enum"@) is None,
        spec_get(schema, "default"@) is None,
        spec_get(schema, "const"@) is None,
    ensures
        spec_value_doc(schema, value, links_in_hover) == match spec_schema_docs(schema) {
            Some(d) => d,
            None => match spec_str_at(schema, "title"@) {
                Some(t) => t,
                None => Seq::<char>::empty(),
            },
        },
{
}

/// Without links in hover, the only banner a key hover can show is the
/// deprecation notice, shown exactly when the schema's `deprecated` is
/// `true`.
pub proof fn without_links_only_deprecation_is_bannered<F: Fn(&JsonValue) -> Option<String>>(
    render: F,
    schema: JsonValue,
    h: HoverSections,
)
    requires
        key_hover_rel(render, schema, false, h),
    ensures
        spec_index(schema, "deprecated"@) == JsonValue::Bool(true) ==> h.banners@.len() == 1 && h.banners@[0]@
            == "> **Deprecated**"@,
        spec_index(schema, "deprecated"@) != JsonValue::Bool(true) ==> h.banners@.len() == 0,
{
    let b = spec_banners(schema, false);
    assert(strs(h.banners@) == b);
    assert(strs(h.banners@).len() == h.banners@.len());
    if spec_index(schema, "deprecated"@) == JsonValue::Bool(true) {
        assert(b =~= seq!["> **Deprecated**"@]);
        assert(strs(h.banners@)[0] == h.banners@[0]@);
    } else {
        assert(b =~= Seq::<Seq<char>>::empty());
    }
}

} // verus!
