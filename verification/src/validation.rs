use vstd::prelude::*;

use jsonschema::error::ValidationErrorKind;
use jsonschema::error::ValidationErrorKind::AdditionalProperties;
use jsonschema::paths::LocationSegment::{Index, Property};
use jsonschema::ReferencingError;

use crate::anchors::{lemma_children_height, schema_children, spec_schema_children};
use crate::formats::{semver, semver_req};
use crate::schema::KeyOrIndex::Key;
use crate::json::JsonValue;
use crate::markdown::{lemma_strs_push, strs};
use crate::jsontext::{json_text, to_json_text};
use crate::jsonview::{copy_json, entries_remove, lemma_get_view, lemma_items_view, view_get, view_height, view_index, view_remove, JsonView};
use crate::schema::{
    absolute_refs, declared_draft, detached_condition, spec_absolute_refs, spec_declared_draft, spec_detached_condition,
    str_member, validation_draft, view_str, DeclaredDraft, DraftDeclaration,
    KeyOrIndex, SchemaDraft,
};
use crate::traversal::{
    embedded_resource, find_embedded, find_found, lookup_found, path_view, refs_view, spec_load, step_view, ErrorView, Halt, HaltView,
    Knowledge, Need, NeedView, PathStep, TraversalError,
};
use crate::urls::{strip_fragment, url_without_fragment};

verus! {

#[verifier::external_type_specification]
#[verifier::external_body]
pub struct ExRegistry<'a>(jsonschema::Registry<'a>);

#[verifier::external_type_specification]
#[verifier::external_body]
pub struct ExSerdeValue(serde_json::Value);

#[verifier::external_type_specification]
#[verifier::external_body]
pub struct ExDraft(jsonschema::Draft);

/// Why a schema could not be compiled.
#[derive(Debug)]
pub enum Refusal {
    /// It reaches a document that is not among those given.
    Missing(String),
    /// It cannot be compiled; the message says why.
    Invalid(String),
}

/// A `Refusal` as the specifications read it.
pub enum RefusalView {
    Missing(Seq<char>),
    Invalid(Seq<char>),
}

impl View for Refusal {
    type V = RefusalView;

    open spec fn view(&self) -> RefusalView {
        match self {
            Refusal::Missing(u) => RefusalView::Missing(u@),
            Refusal::Invalid(m) => RefusalView::Invalid(m@),
        }
    }
}

/// One way a document fails its schema: where, the keys an
/// `additionalProperties` does not admit there, and what is wrong.
#[derive(Debug)]
pub struct SchemaViolation {
    pub instance_path: Vec<KeyOrIndex>,
    pub unexpected: Vec<String>,
    pub message: String,
}

/// A `SchemaViolation` as the specifications read it.
pub type ViolationView = (Seq<KeyOrIndex>, Seq<Seq<char>>, Seq<char>);

/// The violations, as the specifications read them.
pub open spec fn violations_view(v: Seq<SchemaViolation>) -> Seq<ViolationView> {
    v.map_values(|x: SchemaViolation| (x.instance_path@, x.unexpected@.map_values(|k: String| k@), x.message@))
}

/// What a schema is compiled from: the documents registered with it, by
/// URL, as JSON text; its own JSON text; the URI it is based at; and the
/// draft.
pub type SchemaSource = (Seq<(Seq<char>, Seq<char>)>, Seq<char>, Seq<char>, SchemaDraft);

/// The texts of documents by URL.
pub open spec fn texts_view(documents: Seq<(String, String)>) -> Seq<(Seq<char>, Seq<char>)> {
    documents.map_values(|d: (String, String)| (d.0@, d.1@))
}

/// Every refusal `jsonschema`'s registry may report for these documents.
/// It crawls the references they hold in an order that varies from process
/// to process and stops at the first it cannot retrieve, so which of them
/// it reports varies; it succeeds exactly when there is none.
pub uninterp spec fn registry_refusals(documents: Seq<(Seq<char>, Seq<char>)>) -> Set<RefusalView>;

/// Every refusal `jsonschema` may report when it builds a validator from
/// `source`; as with the registry, which one it reports varies, and it
/// succeeds exactly when there is none.
pub uninterp spec fn build_refusals(source: SchemaSource) -> Set<RefusalView>;

/// Whether the validator `jsonschema` builds from `source` accepts the
/// instance with this JSON text.
pub uninterp spec fn jsonschema_accepts(source: SchemaSource, instance: Seq<char>) -> bool;

/// The errors the validator `jsonschema` builds from `source` reports for
/// the instance with this JSON text: where each is, the keys it names as not
/// admitted by `additionalProperties` (none for an error of another kind),
/// and its message. Their order is not claimed.
pub uninterp spec fn jsonschema_errors(source: SchemaSource, instance: Seq<char>) -> vstd::multiset::Multiset<ViolationView>;

/// Documents registered with `jsonschema`, by URL.
pub struct DocumentRegistry {
    registry: jsonschema::Registry<'static>,
    documents: Ghost<Seq<(Seq<char>, Seq<char>)>>,
}

impl DocumentRegistry {
    /// The documents it holds: their URLs and JSON texts.
    pub closed spec fn documents(&self) -> Seq<(Seq<char>, Seq<char>)> {
        self.documents@
    }
}

/// A schema parsed for `jsonschema`, with the base and draft it is
/// compiled under.
pub struct SchemaSettings {
    schema: serde_json::Value,
    draft: jsonschema::Draft,
    base: String,
    source: Ghost<(Seq<char>, Seq<char>, SchemaDraft)>,
}

impl SchemaSettings {
    /// Its JSON text, base and draft.
    pub closed spec fn source(&self) -> (Seq<char>, Seq<char>, SchemaDraft) {
        self.source@
    }
}

/// What a validator is built from: the registered documents and the schema.
pub open spec fn source_of(r: DocumentRegistry, s: SchemaSettings) -> SchemaSource {
    (r.documents(), s.source().0, s.source().1, s.source().2)
}

/// Registers `documents`, each parsed with `serde_json::from_str` (a text
/// that does not parse is taken as `null`), with a `jsonschema::Registry`
/// (`Registry::new`, `extend`, `prepare`). Claimed: it succeeds exactly
/// when the registry has nothing to refuse, and a refusal it reports is one
/// of those it may report; which one is not claimed.
#[verifier::external_body]
fn register(documents: &Vec<(String, String)>) -> (r: Result<DocumentRegistry, Refusal>)
    ensures
        r is Ok <==> registry_refusals(texts_view(documents@)).is_empty(),
        match r {
            Ok(g) => g.documents() == texts_view(documents@),
            Err(e) => registry_refusals(texts_view(documents@)).contains(e@),
        },
{
    let parsed = documents.iter().map(|(u, d)| (u, serde_json::from_str::<serde_json::Value>(d).unwrap_or_default()));
    match jsonschema::Registry::new().extend(parsed).and_then(|b| b.prepare()) {
        Ok(registry) => Ok(DocumentRegistry { registry, documents: Ghost(texts_view(documents@)) }),
        Err(ReferencingError::Unretrievable { uri, .. }) => Err(Refusal::Missing(uri)),
        Err(e) => Err(Refusal::Invalid(e.to_string())),
    }
}

/// Parses `schema` with `serde_json::from_str` (a text that does not parse
/// is taken as `null`) and takes `draft` as the `jsonschema::Draft` of the
/// same name.
#[verifier::external_body]
fn settings(schema: &str, base: &str, draft: SchemaDraft) -> (r: SchemaSettings)
    ensures
        r.source() == (schema@, base@, draft),
{
    let draft_used = match draft {
        SchemaDraft::Draft4 => jsonschema::Draft::Draft4,
        SchemaDraft::Draft6 => jsonschema::Draft::Draft6,
        SchemaDraft::Draft7 => jsonschema::Draft::Draft7,
        SchemaDraft::Draft201909 => jsonschema::Draft::Draft201909,
        SchemaDraft::Draft202012 => jsonschema::Draft::Draft202012,
    };
    let schema_value = serde_json::from_str(schema).unwrap_or_default();
    SchemaSettings { schema: schema_value, draft: draft_used, base: base.to_owned(), source: Ghost((schema@, base@, draft)) }
}

/// Builds a validator with `jsonschema::ValidationOptions::build`: offline,
/// over the registered documents, at the schema's base, with its draft,
/// asserting formats, with the `semver` and `semver-requirement` formats.
/// Claimed: it succeeds exactly when the build has nothing to refuse, and a
/// refusal it reports is one of those the build may report. A
/// `jsonschema::Validator` is generic over a trait of `jsonschema`'s, so no
/// value of it is held here: `accepts` and `failures` each build the same
/// validator again from the same registry and settings.
#[verifier::external_body]
fn build_check(r: &DocumentRegistry, s: &SchemaSettings) -> (e: Option<Refusal>)
    ensures
        e is None <==> build_refusals(source_of(*r, *s)).is_empty(),
        e matches Some(x) ==> build_refusals(source_of(*r, *s)).contains(x@),
{
    let options = jsonschema::options().offline().with_registry(&r.registry).with_base_uri(s.base.as_str());
    let options = options.with_format("semver", semver).with_format("semver-requirement", semver_req);
    match options.should_validate_formats(true).with_draft(s.draft).build(&s.schema) {
        Ok(_) => None,
        Err(e) => Some(match e.kind() {
            ValidationErrorKind::Referencing(ReferencingError::Unretrievable { uri, .. }) => Refusal::Missing(uri.clone()),
            _ => Refusal::Invalid(e.to_string()),
        }),
    }
}

/// `Validator::is_valid` of the validator `build_check` builds, on the
/// instance with this JSON text parsed with `serde_json::from_str`. The
/// verdict is named, not stated: it is `jsonschema`'s validation.
#[verifier::external_body]
fn accepts(r: &DocumentRegistry, s: &SchemaSettings, instance: &str) -> (b: bool)
    requires
        build_refusals(source_of(*r, *s)).is_empty(),
    ensures
        b == jsonschema_accepts(source_of(*r, *s), instance@),
{
    let options = jsonschema::options().offline().with_registry(&r.registry).with_base_uri(s.base.as_str());
    let options = options.with_format("semver", semver).with_format("semver-requirement", semver_req);
    let instance = serde_json::from_str(instance).unwrap_or_default();
    options.should_validate_formats(true).with_draft(s.draft).build(&s.schema).map_or(false, |v| v.is_valid(&instance))
}

/// `Validator::iter_errors` of the validator `build_check` builds, on the
/// instance with this JSON text: for each error its instance path, the keys
/// of a `ValidationErrorKind::AdditionalProperties` error (none for another
/// kind), and its message. The errors are named, not stated, and only as a
/// multiset: the order they come in is not claimed.
#[verifier::external_body]
fn failures(r: &DocumentRegistry, s: &SchemaSettings, instance: &str) -> (f: Vec<SchemaViolation>)
    requires
        build_refusals(source_of(*r, *s)).is_empty(),
    ensures
        violations_view(f@).to_multiset() == jsonschema_errors(source_of(*r, *s), instance@),
{
    let options = jsonschema::options().offline().with_registry(&r.registry).with_base_uri(s.base.as_str())
        .with_format("semver", semver).with_format("semver-requirement", semver_req).should_validate_formats(true);
    let Ok(v) = options.with_draft(s.draft).build(&s.schema) else { return Vec::new() };
    v.iter_errors(&serde_json::from_str(instance).unwrap_or_default()).map(|e| SchemaViolation {
        instance_path: e.instance_path().iter().map(|p| match p { Property(k) => Key(k.to_string()), Index(i) => KeyOrIndex::Index(i) }).collect(),
        unexpected: match e.kind() { AdditionalProperties { unexpected } => unexpected.clone(), _ => Vec::new() },
        message: e.to_string(),
    }).collect()
}

/// The draft a schema declaring `declared` is validated under: the one it
/// declares where that is supported, draft 7 otherwise.
pub open spec fn draft_for(declared: DraftDeclaration) -> SchemaDraft {
    match declared {
        DraftDeclaration::Supported(d) => d,
        _ => SchemaDraft::Draft7,
    }
}

/// The document the `$ref` of the schema `v` names: its URL without the
/// fragment; none where `v` has no `$ref` or it is no URL.
pub open spec fn own_ref_document(v: JsonView) -> Seq<Seq<char>> {
    match view_str(view_index(v, "$ref"@)) {
        Some(r) => match url_without_fragment(r) {
            Some(d) => seq![d],
            None => Seq::empty(),
        },
        None => Seq::empty(),
    }
}

/// The documents the `$ref`s within the schema `v` name, searched through
/// its subschemas depth first, in order.
pub open spec fn ref_documents(v: JsonView) -> Seq<Seq<char>>
    decreases view_height(v), 1nat, 0nat,
{
    own_ref_document(v) + refs_among(spec_schema_children(v), view_height(v))
}

/// The documents the `$ref`s within each of `children` name, in order;
/// each is less deep than `bound`.
pub open spec fn refs_among(children: Seq<JsonView>, bound: nat) -> Seq<Seq<char>>
    decreases bound, 0nat, children.len(),
{
    if children.len() == 0 {
        Seq::empty()
    } else if view_height(children[0]) < bound {
        ref_documents(children[0]) + refs_among(children.drop_first(), bound)
    } else {
        refs_among(children.drop_first(), bound)
    }
}

/// Appends to `out` the documents the `$ref`s within the schema `v` name.
fn push_ref_documents(v: &JsonValue, out: &mut Vec<String>)
    ensures
        strs(final(out)@) == strs(old(out)@) + ref_documents(v@),
    decreases view_height(v@),
{
    let ghost start = strs(out@);
    proof {
        reveal_strlit("$ref");
    }
    if let Some(r) = str_member(v, "$ref") {
        if let Some(d) = strip_fragment(r) {
            let ghost prev = out@;
            let ghost dv = d;
            out.push(d);
            proof {
                lemma_strs_push(prev, dv);
            }
        }
    }
    assert(strs(out@) =~= start + own_ref_document(v@));
    let children = schema_children(v);
    let ghost cv = refs_view(children@);
    let ghost h = view_height(v@);
    let ghost mid = strs(out@);
    proof {
        lemma_children_height(v@);
    }
    let mut i: usize = 0;
    assert(cv.skip(0) =~= cv);
    assert(mid =~= mid + Seq::<Seq<char>>::empty());
    while i < children.len()
        invariant
            0 <= i <= children@.len(),
            cv == refs_view(children@),
            cv.len() == children@.len(),
            cv == spec_schema_children(v@),
            h == view_height(v@),
            forall|m: int| 0 <= m < cv.len() ==> #[trigger] view_height(cv[m]) < h,
            mid + refs_among(cv, h) == strs(out@) + refs_among(cv.skip(i as int), h),
        decreases children@.len() - i,
    {
        let ghost rest = cv.skip(i as int);
        let ghost before = strs(out@);
        assert(rest[0] == cv[i as int]);
        assert(rest.drop_first() =~= cv.skip(i + 1));
        assert(cv[i as int] == children@[i as int]@);
        assert(view_height(children@[i as int]@) < h);
        assert(refs_among(rest, h) == ref_documents(cv[i as int]) + refs_among(cv.skip(i + 1), h));
        push_ref_documents(children[i], out);
        assert(before + (ref_documents(cv[i as int]) + refs_among(cv.skip(i + 1), h)) =~= (before + ref_documents(
            cv[i as int],
        )) + refs_among(cv.skip(i + 1), h));
        i += 1;
    }
    assert(cv.skip(cv.len() as int) =~= Seq::<JsonView>::empty());
    assert(strs(out@) + refs_among(Seq::<JsonView>::empty(), h) =~= strs(out@));
    assert(start + ref_documents(v@) =~= (start + own_ref_document(v@)) + refs_among(cv, h));
}

/// The documents `table` holds loaded, in order: each by its URL, as the
/// JSON text of the document compiled at that URL (its references made
/// absolute, a `$schema` naming an unsupported draft dropped). Every one of them is registered with `jsonschema`, so that the
/// resources they embed are found by their `$id`.
pub open spec fn loaded_texts(table: Seq<(String, Option<(String, JsonValue)>)>) -> Seq<(Seq<char>, Seq<char>)>
    decreases table.len(),
{
    if table.len() == 0 {
        Seq::empty()
    } else {
        let rest = loaded_texts(table.drop_first());
        match table[0].1 {
            Some((_, d)) => seq![(table[0].0@, json_text(spec_compiled(d@, table[0].0@).0))] + rest,
            None => rest,
        }
    }
}

/// The documents the references within the loaded documents of `table`
/// name, each compiled at its URL, in order.
pub open spec fn loaded_refs(table: Seq<(String, Option<(String, JsonValue)>)>) -> Seq<Seq<char>>
    decreases table.len(),
{
    if table.len() == 0 {
        Seq::empty()
    } else {
        let rest = loaded_refs(table.drop_first());
        match table[0].1 {
            Some((_, d)) => ref_documents(spec_compiled(d@, table[0].0@).0) + rest,
            None => rest,
        }
    }
}

/// The loaded documents of `k` as they are registered, and the documents
/// their references name.
fn loaded_documents(k: &Knowledge) -> (r: (Vec<(String, String)>, Vec<String>))
    ensures
        texts_view(r.0@) == loaded_texts(k.documents@),
        strs(r.1@) == loaded_refs(k.documents@),
{
    let mut texts: Vec<(String, String)> = Vec::new();
    let mut refs: Vec<String> = Vec::new();
    let ghost t = k.documents@;
    let mut i: usize = 0;
    assert(t.skip(0) =~= t);
    assert(texts_view(texts@) + loaded_texts(t) =~= loaded_texts(t));
    assert(strs(refs@) + loaded_refs(t) =~= loaded_refs(t));
    while i < k.documents.len()
        invariant
            0 <= i <= t.len(),
            t == k.documents@,
            texts_view(texts@) + loaded_texts(t.skip(i as int)) == loaded_texts(t),
            strs(refs@) + loaded_refs(t.skip(i as int)) == loaded_refs(t),
        decreases t.len() - i,
    {
        let ghost rest = t.skip(i as int);
        assert(rest.drop_first() =~= t.skip(i + 1));
        assert(rest[0] == t[i as int]);
        if let Some((_, d)) = &k.documents[i].1 {
            let (absolute, _) = compiled(d, k.documents[i].0.as_str());
            let text = to_json_text(&absolute);
            let ghost tb = texts_view(texts@);
            let ghost rb = strs(refs@);
            texts.push((k.documents[i].0.clone(), text));
            push_ref_documents(&absolute, &mut refs);
            assert(texts_view(texts@) =~= tb.push((t[i as int].0@, text@)));
            assert(tb + (seq![(t[i as int].0@, text@)] + loaded_texts(t.skip(i + 1))) =~= tb.push(
                (t[i as int].0@, text@),
            ) + loaded_texts(t.skip(i + 1)));
            assert(rb + (ref_documents(absolute@) + loaded_refs(t.skip(i + 1))) =~= (rb + ref_documents(absolute@))
                + loaded_refs(t.skip(i + 1)));
        }
        i += 1;
    }
    assert(t.skip(t.len() as int) =~= Seq::<(String, Option<(String, JsonValue)>)>::empty());
    assert(texts_view(texts@) + Seq::<(Seq<char>, Seq<char>)>::empty() =~= texts_view(texts@));
    assert(strs(refs@) + Seq::<Seq<char>>::empty() =~= strs(refs@));
    (texts, refs)
}

/// The first of `urls` that `k` knows nothing of: no document it holds has
/// that URL, and no document it holds loaded embeds a resource under it.
pub open spec fn first_unknown(k: Knowledge, urls: Seq<Seq<char>>) -> Option<Seq<char>>
    decreases urls.len(),
{
    if urls.len() == 0 {
        None
    } else if lookup_found(k.documents@, urls[0]) is None && embedded_resource(k.documents@, urls[0]) is None {
        Some(urls[0])
    } else {
        first_unknown(k, urls.drop_first())
    }
}

/// The first document a compiled schema needs that `k` knows nothing of:
/// one the references within the schema or within the documents `k` holds
/// loaded name.
pub open spec fn needed_unknown(k: Knowledge, compiled: JsonView) -> Option<Seq<char>> {
    first_unknown(k, ref_documents(compiled) + loaded_refs(k.documents@))
}

fn needed_unknown_exec(k: &Knowledge, compiled: &JsonValue, known_refs: &Vec<String>) -> (r: Option<String>)
    requires
        strs(known_refs@) == loaded_refs(k.documents@),
    ensures
        match r {
            Some(u) => needed_unknown(*k, compiled@) == Some(u@),
            None => needed_unknown(*k, compiled@) is None,
        },
{
    let mut urls: Vec<String> = Vec::new();
    assert(strs(urls@) =~= Seq::<Seq<char>>::empty());
    push_ref_documents(compiled, &mut urls);
    let ghost own = strs(urls@);
    let mut j: usize = 0;
    while j < known_refs.len()
        invariant
            0 <= j <= known_refs@.len(),
            strs(urls@) == own + strs(known_refs@).take(j as int),
        decreases known_refs@.len() - j,
    {
        let ghost prev = urls@;
        let c = known_refs[j].clone();
        let ghost cv = c;
        urls.push(c);
        proof {
            lemma_strs_push(prev, cv);
            assert(strs(known_refs@).take(j + 1) =~= strs(known_refs@).take(j as int).push(known_refs@[j as int]@));
            assert(strs(urls@) =~= own + strs(known_refs@).take(j + 1));
        }
        j += 1;
    }
    assert(strs(known_refs@).take(known_refs@.len() as int) =~= strs(known_refs@));
    let ghost all = strs(urls@);
    assert(all =~= ref_documents(compiled@) + loaded_refs(k.documents@));
    let mut i: usize = 0;
    assert(all.skip(0) =~= all);
    while i < urls.len()
        invariant
            all == strs(urls@),
            all == ref_documents(compiled@) + loaded_refs(k.documents@),
            all.len() == urls@.len(),
            0 <= i <= all.len(),
            first_unknown(*k, all) == first_unknown(*k, all.skip(i as int)),
        decreases all.len() - i,
    {
        let u = &urls[i];
        assert(u@ == all[i as int]);
        assert(all.skip(i as int)[0] == all[i as int]);
        assert(all.skip(i as int).drop_first() =~= all.skip(i + 1));
        let unknown = match find_found(&k.documents, u.as_str()) {
            None => match find_embedded(&k.documents, u.as_str()) {
                None => true,
                Some(_) => false,
            },
            Some(_) => false,
        };
        if unknown {
            assert(first_unknown(*k, all.skip(i as int)) == Some(all[i as int]));
            let c = u.clone();
            assert(c@ == u@);
            return Some(c);
        }
        i += 1;
    }
    None
}

/// What compiling `text` at `base` under `draft`, with every document `k`
/// holds loaded registered, may be refused for: the registry's refusals, or,
/// where it has none, the validator build's.
pub open spec fn compile_refusals(k: Knowledge, text: Seq<char>, base: Seq<char>, draft: SchemaDraft) -> Set<RefusalView> {
    let docs = loaded_texts(k.documents@);
    if registry_refusals(docs).is_empty() {
        build_refusals((docs, text, base, draft))
    } else {
        registry_refusals(docs)
    }
}

/// What a schema is compiled from with the documents `k` holds loaded.
pub open spec fn compile_source(k: Knowledge, text: Seq<char>, base: Seq<char>, draft: SchemaDraft) -> SchemaSource {
    (loaded_texts(k.documents@), text, base, draft)
}

/// Compiles a schema from `text` at `base` under `draft`, with every
/// document `k` holds loaded (`docs`) registered: it succeeds exactly when
/// there is nothing to refuse, and a refusal is one of those that may come.
fn compile(k: &Knowledge, docs: &Vec<(String, String)>, text: &str, base: &str, draft: SchemaDraft) -> (r: Result<
    (DocumentRegistry, SchemaSettings),
    Refusal,
>)
    requires
        texts_view(docs@) == loaded_texts(k.documents@),
    ensures
        r is Ok <==> compile_refusals(*k, text@, base@, draft).is_empty(),
        match r {
            Ok((reg, set)) => source_of(reg, set) == compile_source(*k, text@, base@, draft) && build_refusals(
                source_of(reg, set),
            ).is_empty(),
            Err(e) => compile_refusals(*k, text@, base@, draft).contains(e@),
        },
{
    let set = settings(text, base, draft);
    let registry = match register(docs) {
        Ok(g) => g,
        Err(e) => return Err(e),
    };
    match build_check(&registry, &set) {
        None => Ok((registry, set)),
        Some(e) => Err(e),
    }
}

/// How a refusal halts a run over what `k` knows: a document it does not
/// know yet is asked for; one it knows could not be loaded fails the run,
/// and so does one it holds that still cannot be retrieved; a schema that
/// cannot be compiled fails it with the reason.
pub open spec fn refusal_halt(k: Knowledge, e: RefusalView) -> HaltView {
    match e {
        RefusalView::Missing(u) => match lookup_found(k.documents@, u) {
            None => HaltView::Needs(NeedView::Document(u)),
            Some(None) => HaltView::Failed(ErrorView::Unloadable(u)),
            Some(Some(_)) => HaltView::Failed(ErrorView::Unresolved(u)),
        },
        RefusalView::Invalid(m) => HaltView::Failed(ErrorView::InvalidSchema(m)),
    }
}

fn halt_for(k: &Knowledge, e: Refusal) -> (h: Halt)
    ensures
        h@ == refusal_halt(*k, e@),
{
    match e {
        Refusal::Missing(u) => match find_found(&k.documents, u.as_str()) {
            None => Halt::Needs(Need::Document(u)),
            Some(None) => Halt::Failed(TraversalError::Unloadable(u)),
            Some(Some(_)) => Halt::Failed(TraversalError::Unresolved(u)),
        },
        Refusal::Invalid(m) => Halt::Failed(TraversalError::InvalidSchema(m)),
    }
}

/// A schema as it is compiled at `base`: its references made absolute, and
/// the draft it is validated under, the one it declares where that is
/// supported and draft 7 otherwise. A schema declaring a draft that is not
/// supported is compiled without its `$schema`, so that it is read by draft
/// 7's rules rather than refused for naming a meta-schema no validator
/// knows.
pub open spec fn spec_compiled(schema: JsonView, base: Seq<char>) -> (JsonView, SchemaDraft) {
    let absolute = spec_absolute_refs(schema, base);
    let declared = spec_declared_draft(absolute);
    let compiled = match (declared, absolute) {
        (DraftDeclaration::Unsupported(_), JsonView::Object(es)) => JsonView::Object(view_remove(es, "$schema"@)),
        _ => absolute,
    };
    (compiled, draft_for(declared))
}

/// A schema as it is compiled at `base`, and the draft it is validated
/// under.
pub fn compiled(schema: &JsonValue, base: &str) -> (r: (JsonValue, SchemaDraft))
    ensures
        (r.0@, r.1) == spec_compiled(schema@, base@),
{
    let mut absolute = absolute_refs(schema, base);
    let declared = declared_draft(&absolute);
    let draft = validation_draft(&declared);
    if let DeclaredDraft::Unsupported(_) = declared {
        if let JsonValue::Object(es) = &mut absolute {
            entries_remove(es, "$schema");
        }
    }
    (absolute, draft)
}

/// What validating `value` against the schema at `schema_url` may give,
/// from what `k` knows. A document the schema needs that `k` knows nothing
/// of is asked for, the first one; otherwise the schema, its references made
/// absolute, is compiled with every document `k` holds loaded, and gives the
/// errors `jsonschema` reports, in some order, or halts for one of the
/// refusals that may come.
pub open spec fn validation_outcome(
    k: Knowledge,
    schema_url: Seq<char>,
    value: JsonView,
    r: Result<Seq<ViolationView>, HaltView>,
) -> bool {
    match spec_load(k, schema_url) {
        Err(h) => r == Err::<Seq<ViolationView>, HaltView>(h),
        Ok(schema) => {
            let (compiled, draft) = spec_compiled(schema, schema_url);
            match needed_unknown(k, compiled) {
                Some(u) => r == Err::<Seq<ViolationView>, HaltView>(HaltView::Needs(NeedView::Document(u))),
                None => {
                    let text = json_text(compiled);
                    let refusals = compile_refusals(k, text, schema_url, draft);
                    if refusals.is_empty() {
                        r matches Ok(vs) && vs.to_multiset() == jsonschema_errors(
                            compile_source(k, text, schema_url, draft),
                            json_text(value),
                        )
                    } else {
                        r matches Err(h) && exists|e: RefusalView| #[trigger] refusals.contains(e) && h == refusal_halt(k, e)
                    }
                },
            }
        },
    }
}

/// A validation's result as the specifications read it.
pub open spec fn validation_view(r: Result<Vec<SchemaViolation>, Halt>) -> Result<Seq<ViolationView>, HaltView> {
    match r {
        Ok(v) => Ok(violations_view(v@)),
        Err(h) => Err(h@),
    }
}

/// Validates `value` against the schema at `schema_url`: the schema's
/// references made absolute, compiled by `jsonschema` under the draft it
/// declares (draft 7 where that is not supported) with the documents `k`
/// holds, every error it reports.
pub fn validate(k: &Knowledge, schema_url: &str, value: &JsonValue) -> (r: Result<Vec<SchemaViolation>, Halt>)
    ensures
        validation_outcome(*k, schema_url@, value@, validation_view(r)),
{
    let schema = match find_found(&k.documents, schema_url) {
        None => return Err(Halt::Needs(Need::Document(schema_url.to_owned()))),
        Some(None) => return Err(Halt::Failed(TraversalError::Unloadable(schema_url.to_owned()))),
        Some(Some(found)) => &found.1,
    };
    let (prepared, draft) = compiled(schema, schema_url);
    let (docs, refs) = loaded_documents(k);
    if let Some(u) = needed_unknown_exec(k, &prepared, &refs) {
        return Err(Halt::Needs(Need::Document(u)));
    }
    let text = to_json_text(&prepared);
    let (registry, set) = match compile(k, &docs, text.as_str(), schema_url, draft) {
        Ok(c) => c,
        Err(e) => {
            let ghost ev = e@;
            let h = halt_for(k, e);
            assert(compile_refusals(*k, text@, schema_url@, draft).contains(ev));
            return Err(h);
        },
    };
    Ok(failures(&registry, &set, to_json_text(value).as_str()))
}

/// The document a condition was written in: the one `k` holds at `base`,
/// if any.
pub open spec fn condition_root(k: Knowledge, base: Seq<char>) -> Option<JsonView> {
    match lookup_found(k.documents@, base) {
        Some(Some((_, d))) => Some(d),
        _ => None,
    }
}

/// Whether `instance` satisfies a condition written under `base`, as
/// `jsonschema` decides it: the condition detached from its document,
/// compiled at `taplo://condition` so that it cannot shadow the document its
/// pointers name. A document it needs that `k` knows nothing of is asked
/// for, the first one. `None` for an absent instance and for a condition
/// that cannot be compiled, where both branches are offered.
pub open spec fn spec_condition_verdict(k: Knowledge, base: Seq<char>, condition: JsonView, instance: JsonView) -> Result<
    Option<bool>,
    HaltView,
> {
    if instance is Null {
        Ok(None)
    } else {
        let at = "taplo://condition"@;
        let (compiled, draft) = spec_compiled(spec_detached_condition(condition, base, condition_root(k, base)), at);
        match needed_unknown(k, compiled) {
            Some(u) => Err(HaltView::Needs(NeedView::Document(u))),
            None => {
                let text = json_text(compiled);
                if compile_refusals(k, text, at, draft).is_empty() {
                    Ok(Some(jsonschema_accepts(compile_source(k, text, at, draft), json_text(instance))))
                } else {
                    Ok(None)
                }
            },
        }
    }
}

/// Whether `instance` satisfies a condition written under `base`: the
/// condition detached from its document and compiled by `jsonschema` on
/// its own, with the documents `k` holds; `None` for an absent instance and
/// for a condition that cannot be compiled.
pub fn condition_verdict(k: &Knowledge, base: &str, condition: &JsonValue, instance: &JsonValue) -> (r: Result<
    Option<bool>,
    Halt,
>)
    ensures
        match r {
            Ok(o) => spec_condition_verdict(*k, base@, condition@, instance@) == Ok::<Option<bool>, HaltView>(o),
            Err(h) => spec_condition_verdict(*k, base@, condition@, instance@) == Err::<Option<bool>, HaltView>(h@),
        },
{
    if instance.is_null() {
        return Ok(None);
    }
    let root = match find_found(&k.documents, base) {
        Some(Some(found)) => Some(&found.1),
        _ => None,
    };
    let detached = detached_condition(condition, base, root);
    let (compiled, draft) = compiled(&detached, "taplo://condition");
    proof {
        reveal_strlit("taplo://condition");
    }
    let (docs, refs) = loaded_documents(k);
    if let Some(u) = needed_unknown_exec(k, &compiled, &refs) {
        return Err(Halt::Needs(Need::Document(u)));
    }
    match compile(k, &docs, to_json_text(&compiled).as_str(), "taplo://condition", draft) {
        Ok((registry, set)) => Ok(Some(accepts(&registry, &set, to_json_text(instance).as_str()))),
        Err(_) => Ok(None),
    }
}

/// Why a violation could not be placed in the document.
#[derive(Debug, PartialEq, Eq, Structural)]
pub enum PlacementError {
    /// The path names a key the table there does not hold, or steps by key
    /// into what is no table.
    InvalidKey,
    /// The path names a position the array there does not hold, or steps by
    /// position into what is no array.
    InvalidIndex,
}

/// What `path` leads to in `node`: each key a member of the table in hand,
/// each position an item of the array in hand.
pub open spec fn spec_locate(node: JsonView, path: Seq<PathStep>) -> Result<JsonView, PlacementError>
    decreases path.len(),
{
    if path.len() == 0 {
        Ok(node)
    } else {
        match path[0] {
            PathStep::Key(p) => match node {
                JsonView::Object(es) => match view_get(es, p) {
                    Some(v) => spec_locate(v, path.drop_first()),
                    None => Err(PlacementError::InvalidKey),
                },
                _ => Err(PlacementError::InvalidKey),
            },
            PathStep::Index(i) => match node {
                JsonView::Array(xs) => if i < xs.len() {
                    spec_locate(xs[i as int], path.drop_first())
                } else {
                    Err(PlacementError::InvalidIndex)
                },
                _ => Err(PlacementError::InvalidIndex),
            },
        }
    }
}

/// What `path` leads to in `node`.
pub fn locate<'a>(node: &'a JsonValue, path: &Vec<KeyOrIndex>) -> (r: Result<&'a JsonValue, PlacementError>)
    ensures
        match r {
            Ok(v) => spec_locate(node@, path_view(path@)) == Ok::<JsonView, PlacementError>(v@),
            Err(e) => spec_locate(node@, path_view(path@)) == Err::<JsonView, PlacementError>(e),
        },
{
    let ghost steps = path_view(path@);
    let mut here: &JsonValue = node;
    let mut i: usize = 0;
    assert(steps.skip(0) =~= steps);
    while i < path.len()
        invariant
            0 <= i <= path@.len(),
            steps == path_view(path@),
            steps.len() == path@.len(),
            spec_locate(node@, steps) == spec_locate(here@, steps.skip(i as int)),
        decreases path@.len() - i,
    {
        let ghost rest = steps.skip(i as int);
        assert(rest[0] == step_view(path@[i as int]));
        assert(rest.drop_first() =~= steps.skip(i + 1));
        match &path[i] {
            KeyOrIndex::Key(p) => match here {
                JsonValue::Object(es) => {
                    proof {
                        lemma_get_view(es@, p@);
                    }
                    match here.get(p.as_str()) {
                        Some(v) => {
                            here = v;
                        },
                        None => {
                            return Err(PlacementError::InvalidKey);
                        },
                    }
                },
                _ => {
                    return Err(PlacementError::InvalidKey);
                },
            },
            KeyOrIndex::Index(n) => match here {
                JsonValue::Array(xs) => {
                    proof {
                        lemma_items_view(xs@);
                    }
                    if *n < xs.len() {
                        here = &xs[*n];
                    } else {
                        return Err(PlacementError::InvalidIndex);
                    }
                },
                _ => {
                    return Err(PlacementError::InvalidIndex);
                },
            },
        }
        i += 1;
    }
    Ok(here)
}

/// A violation placed in the document: the keys it concerns, the node it
/// concerns, and the violation.
#[derive(Debug)]
pub struct NodeValidationError {
    pub keys: Vec<KeyOrIndex>,
    pub node: JsonValue,
    pub error: SchemaViolation,
}

/// The keys a violation concerns: for an `additionalProperties` violation
/// the keys it does not admit, then the steps of its path.
pub open spec fn violation_keys(unexpected: Seq<Seq<char>>, path: Seq<KeyOrIndex>) -> Seq<PathStep> {
    unexpected.map_values(|k: Seq<char>| PathStep::Key(k)) + path_view(path)
}

impl NodeValidationError {
    /// Places `error` in the document `root`: the node its path leads to,
    /// and the keys it concerns.
    pub fn new(root: &JsonValue, error: SchemaViolation) -> (r: Result<NodeValidationError, PlacementError>)
        ensures
            match r {
                Ok(e) => {
                    &&& spec_locate(root@, path_view(error.instance_path@)) == Ok::<JsonView, PlacementError>(e.node@)
                    &&& path_view(e.keys@) == violation_keys(error.unexpected@.map_values(|k: String| k@), error.instance_path@)
                    &&& e.error == error
                },
                Err(x) => spec_locate(root@, path_view(error.instance_path@)) == Err::<JsonView, PlacementError>(x),
            },
    {
        let node = match locate(root, &error.instance_path) {
            Ok(n) => copy_json(n),
            Err(x) => return Err(x),
        };
        let mut keys: Vec<KeyOrIndex> = Vec::new();
        let mut i: usize = 0;
        let ghost u = error.unexpected@.map_values(|k: String| k@);
        while i < error.unexpected.len()
            invariant
                0 <= i <= error.unexpected@.len(),
                u == error.unexpected@.map_values(|k: String| k@),
                path_view(keys@) == u.take(i as int).map_values(|k: Seq<char>| PathStep::Key(k)),
            decreases error.unexpected@.len() - i,
        {
            let ghost before = keys@;
            keys.push(KeyOrIndex::Key(error.unexpected[i].clone()));
            proof {
                assert(path_view(keys@) =~= path_view(before).push(PathStep::Key(u[i as int])));
                assert(u.take(i + 1).map_values(|k: Seq<char>| PathStep::Key(k)) =~= u.take(i as int).map_values(
                    |k: Seq<char>| PathStep::Key(k),
                ).push(PathStep::Key(u[i as int])));
            }
            i += 1;
        }
        let mut j: usize = 0;
        let ghost head = keys@;
        assert(u.take(u.len() as int) =~= u);
        while j < error.instance_path.len()
            invariant
                0 <= j <= error.instance_path@.len(),
                path_view(head) == u.map_values(|k: Seq<char>| PathStep::Key(k)),
                keys@ == head + error.instance_path@.take(j as int),
            decreases error.instance_path@.len() - j,
        {
            let step = match &error.instance_path[j] {
                KeyOrIndex::Key(k) => KeyOrIndex::Key(k.clone()),
                KeyOrIndex::Index(n) => KeyOrIndex::Index(*n),
            };
            keys.push(step);
            assert(keys@ =~= head + error.instance_path@.take(j + 1));
            j += 1;
        }
        proof {
            assert(error.instance_path@.take(error.instance_path@.len() as int) =~= error.instance_path@);
            assert(path_view(keys@) =~= path_view(head) + path_view(error.instance_path@));
        }
        Ok(NodeValidationError { keys, node, error })
    }
}

/// Why a document could not be validated against its schema, or its
/// violations placed.
#[derive(Debug)]
pub enum RootValidationError {
    Halted(Halt),
    Placement(PlacementError),
}

/// The violations validating `root` gives, each placed in `root`; the first
/// that cannot be placed fails them all.
pub open spec fn placed(root: JsonView, violations: Seq<ViolationView>) -> Result<Seq<(Seq<PathStep>, JsonView)>, PlacementError>
    decreases violations.len(),
{
    if violations.len() == 0 {
        Ok(Seq::empty())
    } else {
        match placed(root, violations.drop_last()) {
            Err(e) => Err(e),
            Ok(done) => {
                let v = violations.last();
                match spec_locate(root, path_view(v.0)) {
                    Err(e) => Err(e),
                    Ok(node) => Ok(done.push((violation_keys(v.1, v.0), node))),
                }
            },
        }
    }
}

/// Once a violation cannot be placed, none of those after it changes that.
proof fn lemma_placed_error(root: JsonView, violations: Seq<ViolationView>, j: int)
    requires
        0 <= j <= violations.len(),
        placed(root, violations.take(j)) is Err,
    ensures
        placed(root, violations) == placed(root, violations.take(j)),
    decreases violations.len() - j,
{
    if j < violations.len() {
        assert(violations.take(j + 1).drop_last() =~= violations.take(j));
        lemma_placed_error(root, violations, j + 1);
    } else {
        assert(violations.take(j) =~= violations);
    }
}

/// Placed violations as the specifications read them: the keys each
/// concerns and the node it concerns.
pub open spec fn placements_view(errors: Seq<NodeValidationError>) -> Seq<(Seq<PathStep>, JsonView)> {
    errors.map_values(|e: NodeValidationError| (path_view(e.keys@), e.node@))
}

/// The violations of `errors`, as the specifications read them.
pub open spec fn node_violations_view(errors: Seq<NodeValidationError>) -> Seq<ViolationView> {
    errors.map_values(|e: NodeValidationError| (e.error.instance_path@, e.error.unexpected@.map_values(|k: String| k@), e.error.message@))
}

/// Validates the document `root` against the schema at `schema_url` and
/// places each violation in it.
pub fn validate_root(k: &Knowledge, schema_url: &str, root: &JsonValue) -> (r: Result<Vec<NodeValidationError>, RootValidationError>)
    ensures
        match r {
            Ok(errors) => {
                &&& validation_outcome(*k, schema_url@, root@, Ok::<Seq<ViolationView>, HaltView>(node_violations_view(errors@)))
                &&& placed(root@, node_violations_view(errors@)) == Ok::<Seq<(Seq<PathStep>, JsonView)>, PlacementError>(
                    placements_view(errors@),
                )
            },
            Err(RootValidationError::Halted(h)) => validation_outcome(*k, schema_url@, root@, Err::<Seq<ViolationView>, HaltView>(h@)),
            Err(RootValidationError::Placement(x)) => exists|violations: Seq<ViolationView>|
                validation_outcome(*k, schema_url@, root@, Ok::<Seq<ViolationView>, HaltView>(violations))
                && #[trigger] placed(root@, violations) == Err::<Seq<(Seq<PathStep>, JsonView)>, PlacementError>(x),
        },
{
    let violations = match validate(k, schema_url, root) {
        Ok(v) => v,
        Err(h) => return Err(RootValidationError::Halted(h)),
    };
    let ghost vv = violations_view(violations@);
    let mut out: Vec<NodeValidationError> = Vec::new();
    let mut rest = violations;
    let ghost all = rest@;
    let mut i: usize = 0;
    assert(vv.take(0) =~= Seq::<ViolationView>::empty());
    assert(node_violations_view(out@) =~= Seq::<ViolationView>::empty());
    assert(placements_view(out@) =~= Seq::<(Seq<PathStep>, JsonView)>::empty());
    let n = rest.len();
    assert(all.skip(0) =~= all);
    while rest.len() > 0
        invariant
            validation_outcome(*k, schema_url@, root@, Ok::<Seq<ViolationView>, HaltView>(vv)),
            vv == violations_view(all),
            n == all.len(),
            vv.len() == all.len(),
            i + rest@.len() == n,
            rest@ == all.skip(i as int),
            node_violations_view(out@) == vv.take(i as int),
            placed(root@, vv.take(i as int)) == Ok::<Seq<(Seq<PathStep>, JsonView)>, PlacementError>(placements_view(out@)),
        decreases rest@.len(),
    {
        let v = rest.remove(0);
        proof {
            assert(v == all[i as int]);
            assert(rest@ =~= all.skip(i + 1));
            assert(vv.take(i + 1).drop_last() =~= vv.take(i as int));
            assert(vv.take(i + 1).last() == vv[i as int]);
        }
        match NodeValidationError::new(root, v) {
            Ok(e) => {
                let ghost before = out@;
                out.push(e);
                proof {
                    assert(node_violations_view(out@) =~= vv.take(i + 1));
                    assert(placements_view(out@) =~= placements_view(before).push((path_view(e.keys@), e.node@)));
                }
            },
            Err(x) => {
                proof {
                    assert(placed(root@, vv.take(i + 1)) == Err::<Seq<(Seq<PathStep>, JsonView)>, PlacementError>(x));
                    lemma_placed_error(root@, vv, i + 1);
                }
                return Err(RootValidationError::Placement(x));
            },
        }
        i += 1;
    }
    assert(vv.take(all.len() as int) =~= vv);
    Ok(out)
}

} // verus!
