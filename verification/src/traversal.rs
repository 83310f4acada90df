use vstd::prelude::*;

use crate::json::{json_equals, JsonValue};
use crate::jsonview::{copy_json, lemma_json_eq_view, lemma_view_eq_reflexive, view_eq, JsonView};
use crate::pointer::{fragment_target, pointer_target, spec_fragment_target, spec_pointer_target, FragmentTarget};
use crate::jsonview::{
    entries_remove, json_entries_view, json_items_view, lemma_entries_view, lemma_items_view,
    view_remove,
};
use crate::markdown::{lemma_strs_push, strs};
use crate::schema::{
    absolute_refs, composable, fold_siblings, spec_composable, has_array_keyword, member, merged_all_of, rebase,
    spec_absolute_refs, spec_applicable_conditionals, spec_branches_evaluated, spec_fold_siblings,
    spec_index_subschemas, spec_item_schema, spec_key_subschemas, spec_merged_all_of, spec_rebase,
    step_into, str_member, view_str, KeyOrIndex, applicable_conditionals, branches_evaluated,
    index_subschemas, instance_at, item_schema, key_subschemas, needs_condition, offers_itself,
    spec_instance_at, spec_offers_itself,
};
use crate::urls::{reference_url, strip_fragment, url_join, url_without_fragment};
use crate::jsonview::view_index;
use crate::anchors::{anchored_subschema, spec_anchored_subschema};
use crate::text::str_equals;
use crate::validation::{condition_verdict, spec_condition_verdict};

verus! {

/// What a schema traversal has been told of the world outside the schema
/// in hand: the documents it has loaded, and with them the resources they
/// embed under an `$id`. A traversal that needs another document stops and
/// says which; the caller loads it, records it here, and runs the traversal
/// again.
pub struct Knowledge {
    /// Documents by URL (without fragment): the base each establishes and
    /// its value, or `None` when it could not be loaded.
    pub documents: Vec<(String, Option<(String, JsonValue)>)>,
}

/// Something a traversal needs before it can go on.
#[derive(Debug)]
pub enum Need {
    /// The document at this URL.
    Document(String),
}

/// Why a traversal failed.
#[derive(Debug, PartialEq, Eq)]
pub enum TraversalError {
    /// No URL could be formed from this reference.
    NoUrl(String),
    /// The document at this URL could not be loaded.
    Unloadable(String),
    /// Nothing in its document answers this reference.
    Unresolved(String),
    /// This reference's fragment does not decode to UTF-8.
    Undecodable(String),
    /// A schema could not be compiled; the message says why.
    InvalidSchema(String),
}

/// Why a traversal stopped before its end.
#[derive(Debug)]
pub enum Halt {
    Needs(Need),
    Failed(TraversalError),
}

/// A `Need` as the specifications read it.
pub enum NeedView {
    Document(Seq<char>),
}

/// A `TraversalError` as the specifications read it.
pub enum ErrorView {
    NoUrl(Seq<char>),
    Unloadable(Seq<char>),
    Unresolved(Seq<char>),
    Undecodable(Seq<char>),
    InvalidSchema(Seq<char>),
}

/// A `Halt` as the specifications read it.
pub enum HaltView {
    Needs(NeedView),
    Failed(ErrorView),
}

impl View for Halt {
    type V = HaltView;

    open spec fn view(&self) -> HaltView {
        match self {
            Halt::Needs(Need::Document(u)) => HaltView::Needs(NeedView::Document(u@)),
            Halt::Failed(TraversalError::NoUrl(r)) => HaltView::Failed(ErrorView::NoUrl(r@)),
            Halt::Failed(TraversalError::Unloadable(u)) => HaltView::Failed(ErrorView::Unloadable(u@)),
            Halt::Failed(TraversalError::Unresolved(u)) => HaltView::Failed(ErrorView::Unresolved(u@)),
            Halt::Failed(TraversalError::Undecodable(u)) => HaltView::Failed(
                ErrorView::Undecodable(u@),
            ),
            Halt::Failed(TraversalError::InvalidSchema(m)) => HaltView::Failed(
                ErrorView::InvalidSchema(m@),
            ),
        }
    }
}

/// A found schema and the base around it, as the specifications read it.
pub open spec fn found_view(f: Option<(String, JsonValue)>) -> Option<(Seq<char>, JsonView)> {
    match f {
        Some((b, v)) => Some((b@, v@)),
        None => None,
    }
}

/// What a table records under `url`, the first entry for it; `None` when it
/// records nothing.
pub open spec fn lookup_found(table: Seq<(String, Option<(String, JsonValue)>)>, url: Seq<char>) -> Option<
    Option<(Seq<char>, JsonView)>,
>
    decreases table.len(),
{
    if table.len() == 0 {
        None
    } else if table[0].0@ == url {
        Some(found_view(table[0].1))
    } else {
        lookup_found(table.drop_first(), url)
    }
}

/// What a table records under `url`.
pub(crate) fn find_found<'k>(table: &'k Vec<(String, Option<(String, JsonValue)>)>, url: &str) -> (r: Option<&'k Option<(String, JsonValue)>>)
    ensures
        match r {
            Some(f) => lookup_found(table@, url@) == Some(found_view(*f)),
            None => lookup_found(table@, url@) is None,
        },
{
    let mut i: usize = 0;
    assert(table@.skip(0) =~= table@);
    while i < table.len()
        invariant
            0 <= i <= table@.len(),
            lookup_found(table@, url@) == lookup_found(table@.skip(i as int), url@),
        decreases table@.len() - i,
    {
        assert(table@.skip(i as int).drop_first() =~= table@.skip(i + 1));
        assert(table@.skip(i as int)[0] == table@[i as int]);
        if str_equals(table[i].0.as_str(), url) {
            return Some(&table[i].1);
        }
        i += 1;
    }
    None
}

/// The first schema a loaded document of `table` names `url` by, searched in
/// table order as `spec_anchored_subschema` searches one document, with the
/// base in force around it: how a resource embedded under an `$id` is found
/// without loading anything.
pub open spec fn embedded_resource(table: Seq<(String, Option<(String, JsonValue)>)>, url: Seq<char>) -> Option<
    (Seq<char>, JsonView),
>
    decreases table.len(),
{
    if table.len() == 0 {
        None
    } else {
        match table[0].1 {
            Some((b, d)) => match spec_anchored_subschema(d@, b@, url) {
                Some(found) => Some(found),
                None => embedded_resource(table.drop_first(), url),
            },
            None => embedded_resource(table.drop_first(), url),
        }
    }
}

/// The schema the fragment of `url` names within `document`, whose base is
/// `document_base`: the whole document, a JSON pointer, or an anchor.
pub open spec fn spec_resolve_in(document_base: Seq<char>, document: JsonView, url: Seq<char>) -> Result<
    (Seq<char>, JsonView),
    HaltView,
> {
    match spec_fragment_target(url) {
        Some(None) => Ok((document_base, document)),
        None => Err(HaltView::Failed(ErrorView::Undecodable(url))),
        Some(Some((true, pointer))) => match spec_pointer_target(document_base, document, pointer) {
            Some(found) => Ok(found),
            None => Err(HaltView::Failed(ErrorView::Unresolved(url))),
        },
        Some(Some((false, _))) => match spec_anchored_subschema(document, document_base, url) {
            Some(found) => Ok(found),
            None => Err(HaltView::Failed(ErrorView::Unresolved(url))),
        },
    }
}

/// The schema `url` names and the base around it, from what is known: its
/// document, or else a resource a loaded document embeds under that URL,
/// then the fragment within it (the whole document, a JSON pointer, or an
/// anchor). Only where neither is known is the document asked for.
pub open spec fn spec_resolve(k: Knowledge, url: Seq<char>) -> Result<(Seq<char>, JsonView), HaltView> {
    match url_without_fragment(url) {
        None => Err(HaltView::Failed(ErrorView::Unresolved(url))),
        Some(document_url) => match lookup_found(k.documents@, document_url) {
            None => match embedded_resource(k.documents@, document_url) {
                None => Err(HaltView::Needs(NeedView::Document(document_url))),
                Some((resource_base, resource)) => spec_resolve_in(resource_base, resource, url),
            },
            Some(None) => Err(HaltView::Failed(ErrorView::Unloadable(document_url))),
            Some(Some((document_base, document))) => spec_resolve_in(document_base, document, url),
        },
    }
}

/// Finds the first schema a loaded document of `table` names `url` by.
pub(crate) fn find_embedded<'k>(table: &'k Vec<(String, Option<(String, JsonValue)>)>, url: &str) -> (r: Option<(String, &'k JsonValue)>)
    ensures
        match r {
            Some((b, v)) => embedded_resource(table@, url@) == Some((b@, v@)),
            None => embedded_resource(table@, url@) is None,
        },
{
    let mut i: usize = 0;
    assert(table@.skip(0) =~= table@);
    while i < table.len()
        invariant
            0 <= i <= table@.len(),
            embedded_resource(table@, url@) == embedded_resource(table@.skip(i as int), url@),
        decreases table@.len() - i,
    {
        assert(table@.skip(i as int).drop_first() =~= table@.skip(i + 1));
        assert(table@.skip(i as int)[0] == table@[i as int]);
        if let Some((b, d)) = &table[i].1 {
            if let Some(found) = anchored_subschema(d, b.as_str(), url) {
                return Some(found);
            }
        }
        i += 1;
    }
    None
}

/// The schema the fragment of `url` names within `document`.
fn resolve_in(document_base: &str, document: &JsonValue, url: &str) -> (r: Result<(String, JsonValue), Halt>)
    ensures
        match r {
            Ok((b, v)) => spec_resolve_in(document_base@, document@, url@) == Ok::<(Seq<char>, JsonView), HaltView>((b@, v@)),
            Err(h) => spec_resolve_in(document_base@, document@, url@) == Err::<(Seq<char>, JsonView), HaltView>(h@),
        },
{
    match fragment_target(url) {
        FragmentTarget::Whole => Ok((document_base.to_owned(), copy_json(document))),
        FragmentTarget::Undecodable => Err(Halt::Failed(TraversalError::Undecodable(url.to_owned()))),
        FragmentTarget::Pointer(p) => match pointer_target(document_base, document, p.as_str()) {
            Some((b, v)) => Ok((b, copy_json(v))),
            None => Err(Halt::Failed(TraversalError::Unresolved(url.to_owned()))),
        },
        FragmentTarget::Anchor(_) => match anchored_subschema(document, document_base, url) {
            Some((b, v)) => Ok((b, copy_json(v))),
            None => Err(Halt::Failed(TraversalError::Unresolved(url.to_owned()))),
        },
    }
}

/// The schema `url` names, with the base in force around it.
///
/// A JSON pointer may cross objects that carry `$id`, each of which re-bases
/// what lies beneath it, so the base is the document's joined with every
/// `$id` the pointer walked through; the target's own `$id` is left to
/// whoever enters it.
pub fn resolve(k: &Knowledge, url: &str) -> (r: Result<(String, JsonValue), Halt>)
    ensures
        match r {
            Ok((b, v)) => spec_resolve(*k, url@) == Ok::<(Seq<char>, JsonView), HaltView>((b@, v@)),
            Err(h) => spec_resolve(*k, url@) == Err::<(Seq<char>, JsonView), HaltView>(h@),
        },
{
    let document_url = match strip_fragment(url) {
        Some(d) => d,
        None => return Err(Halt::Failed(TraversalError::Unresolved(url.to_owned()))),
    };
    match find_found(&k.documents, document_url.as_str()) {
        None => match find_embedded(&k.documents, document_url.as_str()) {
            None => Err(Halt::Needs(Need::Document(document_url))),
            Some((b, resource)) => resolve_in(b.as_str(), resource, url),
        },
        Some(None) => Err(Halt::Failed(TraversalError::Unloadable(document_url))),
        Some(Some(found)) => resolve_in(found.0.as_str(), &found.1, url),
    }
}

/// Whether the instance satisfies a condition, as `jsonschema` decides it
/// with the documents known; `None` when that cannot be decided and both
/// branches have to be offered.
pub open spec fn spec_condition(k: Knowledge, base: Seq<char>, condition: JsonView, instance: JsonView) -> Result<
    Option<bool>,
    HaltView,
> {
    spec_condition_verdict(k, base, condition, instance)
}

/// Whether the instance satisfies a condition, `None` when that cannot be
/// decided and both branches have to be offered.
pub fn condition_holds(k: &Knowledge, base: &str, condition: &JsonValue, instance: &JsonValue) -> (r: Result<
    Option<bool>,
    Halt,
>)
    ensures
        match r {
            Ok(o) => spec_condition(*k, base@, condition@, instance@) == Ok::<Option<bool>, HaltView>(o),
            Err(h) => spec_condition(*k, base@, condition@, instance@) == Err::<Option<bool>, HaltView>(h@),
        },
{
    condition_verdict(k, base, condition, instance)
}

/// The schema a `$ref` names, with the URL it resolved to and the base in
/// force around it, its sibling keywords folded over it. `None` for a schema
/// that is no reference, and for one whose URL cannot be formed or that
/// cannot be resolved: a reference that leads nowhere contributes nothing.
pub open spec fn spec_ref_schema_value(k: Knowledge, base: Seq<char>, schema: JsonView) -> Result<
    Option<(Seq<char>, Seq<char>, JsonView)>,
    HaltView,
> {
    match view_str(view_index(schema, "$ref"@)) {
        None => Ok(None),
        Some(r) => match url_join(base, r) {
            None => Ok(None),
            Some(url) => match spec_resolve(k, url) {
                Err(HaltView::Needs(n)) => Err(HaltView::Needs(n)),
                Err(HaltView::Failed(_)) => Ok(None),
                Ok((target_base, target)) => Ok(
                    Some((url, target_base, spec_fold_siblings(target, schema, base))),
                ),
            },
        },
    }
}

/// The schema a `$ref` names, with the URL it resolved to and the base in
/// force around it, its sibling keywords folded over it.
pub fn ref_schema_value(k: &Knowledge, base: &str, schema: &JsonValue) -> (r: Result<
    Option<(String, String, JsonValue)>,
    Halt,
>)
    ensures
        match r {
            Ok(Some((u, b, v))) => spec_ref_schema_value(*k, base@, schema@) == Ok::<
                Option<(Seq<char>, Seq<char>, JsonView)>,
                HaltView,
            >(Some((u@, b@, v@))),
            Ok(None) => spec_ref_schema_value(*k, base@, schema@) == Ok::<
                Option<(Seq<char>, Seq<char>, JsonView)>,
                HaltView,
            >(None),
            Err(h) => spec_ref_schema_value(*k, base@, schema@) == Err::<
                Option<(Seq<char>, Seq<char>, JsonView)>,
                HaltView,
            >(h@),
        },
{
    let r = match str_member(schema, "$ref") {
        Some(r) => r,
        None => return Ok(None),
    };
    let url = match reference_url(base, r) {
        Some(u) => u,
        None => return Ok(None),
    };
    match resolve(k, url.as_str()) {
        Err(Halt::Needs(n)) => Err(Halt::Needs(n)),
        Err(Halt::Failed(_)) => Ok(None),
        Ok((target_base, target)) => {
            let folded = fold_siblings(&target, schema, base);
            Ok(Some((url, target_base, folded)))
        },
    }
}

/// Whether `visited` holds `url`.
pub(crate) fn contains_url(visited: &Vec<String>, url: &str) -> (r: bool)
    ensures
        r == strs(visited@).contains(url@),
{
    let mut i: usize = 0;
    while i < visited.len()
        invariant
            0 <= i <= visited@.len(),
            forall|h: int| 0 <= h < i ==> (#[trigger] visited@[h])@ != url@,
        decreases visited@.len() - i,
    {
        if str_equals(visited[i].as_str(), url) {
            assert(strs(visited@)[i as int] == url@);
            return true;
        }
        i += 1;
    }
    assert(!strs(visited@).contains(url@)) by {
        assert forall|h: int| 0 <= h < strs(visited@).len() implies strs(visited@)[h] != url@ by {
            assert(strs(visited@)[h] == visited@[h]@);
        }
    }
    false
}

/// An `allOf` composed into one schema, its members resolved from what is
/// known: each member (a reference followed once per chain, as `visited`
/// records) composed in turn and made absolute against its base, merged in
/// order, then the carrier without its `allOf` merged over them. `None`
/// where composition does not apply: no `allOf` array, no budget left, a
/// `oneOf`, `anyOf` or `properties` of the schema's own, or an array
/// keyword in the result.
pub open spec fn spec_compose_all_of(
    k: Knowledge,
    base: Seq<char>,
    schema: JsonView,
    budget: nat,
    visited: Seq<Seq<char>>,
) -> Result<Option<JsonView>, HaltView>
    decreases budget, 2nat, 0nat,
{
    match view_index(schema, "allOf"@) {
        JsonView::Array(members) => if budget == 0 || !(view_index(schema, "oneOf"@) is Null) || !(
        view_index(schema, "anyOf"@) is Null) || !(view_index(schema, "properties"@) is Null) {
            Ok(None)
        } else {
            let inner = match spec_rebase(base, schema) {
                Some(b) => b,
                None => base,
            };
            match compose_fold(k, inner, members, budget, visited) {
                Err(e) => Err(e),
                Ok(merged) => match spec_absolute_refs(schema, base) {
                    JsonView::Object(es) => {
                        let composed = spec_merged_all_of(
                            merged,
                            JsonView::Object(view_remove(es, "allOf"@)),
                        );
                        if has_array_keyword(composed) {
                            Ok(None)
                        } else {
                            Ok(Some(composed))
                        }
                    },
                    _ => Ok(None),
                },
            }
        },
        _ => Ok(None),
    }
}

/// The members of an `allOf`, composed and merged in order from an empty
/// object.
pub open spec fn compose_fold(
    k: Knowledge,
    base: Seq<char>,
    members: Seq<JsonView>,
    budget: nat,
    visited: Seq<Seq<char>>,
) -> Result<JsonView, HaltView>
    decreases budget, 1nat, members.len(),
{
    if members.len() == 0 {
        Ok(JsonView::Object(Seq::empty()))
    } else {
        match compose_fold(k, base, members.drop_last(), budget, visited) {
            Err(e) => Err(e),
            Ok(m) => match compose_member(k, base, members.last(), budget, visited) {
                Err(e) => Err(e),
                Ok(None) => Ok(m),
                Ok(Some(member)) => Ok(spec_merged_all_of(m, member)),
            },
        }
    }
}

/// One `allOf` member ready to merge: resolved when it is a reference (and
/// skipped when that reference is already on the chain), composed in turn,
/// and made absolute against its base.
pub open spec fn compose_member(
    k: Knowledge,
    base: Seq<char>,
    member: JsonView,
    budget: nat,
    visited: Seq<Seq<char>>,
) -> Result<Option<JsonView>, HaltView>
    decreases budget, 0nat, 0nat,
{
    if budget == 0 {
        Ok(None)
    } else {
        match spec_ref_schema_value(k, base, member) {
            Err(e) => Err(e),
            Ok(Some((url, target_base, target))) => if visited.contains(url) {
                Ok(None)
            } else {
                match spec_compose_all_of(k, target_base, target, (budget - 1) as nat, visited.push(url)) {
                    Err(e) => Err(e),
                    Ok(c) => Ok(
                        Some(
                            spec_absolute_refs(
                                match c {
                                    Some(x) => x,
                                    None => target,
                                },
                                target_base,
                            ),
                        ),
                    ),
                }
            },
            Ok(None) => match spec_compose_all_of(k, base, member, (budget - 1) as nat, visited) {
                Err(e) => Err(e),
                Ok(c) => Ok(
                    Some(
                        spec_absolute_refs(
                            match c {
                                Some(x) => x,
                                None => member,
                            },
                            base,
                        ),
                    ),
                ),
            },
        }
    }
}

proof fn lemma_compose_fold_error(
    k: Knowledge,
    base: Seq<char>,
    members: Seq<JsonView>,
    budget: nat,
    visited: Seq<Seq<char>>,
    j: int,
)
    requires
        0 <= j <= members.len(),
        compose_fold(k, base, members.take(j), budget, visited) is Err,
    ensures
        compose_fold(k, base, members, budget, visited) == compose_fold(
            k,
            base,
            members.take(j),
            budget,
            visited,
        ),
    decreases members.len() - j,
{
    if j < members.len() {
        assert(members.take(j + 1).drop_last() =~= members.take(j));
        lemma_compose_fold_error(k, base, members, budget, visited, j + 1);
    } else {
        assert(members.take(j) =~= members);
    }
}

/// Makes one `allOf` member ready to merge.
fn compose_member_exec(
    k: &Knowledge,
    base: &str,
    member: &JsonValue,
    budget: usize,
    visited: &mut Vec<String>,
) -> (r: Result<Option<JsonValue>, Halt>)
    ensures
        match r {
            Ok(Some(v)) => compose_member(*k, base@, member@, budget as nat, strs(old(visited)@))
                == Ok::<Option<JsonView>, HaltView>(Some(v@)),
            Ok(None) => compose_member(*k, base@, member@, budget as nat, strs(old(visited)@))
                == Ok::<Option<JsonView>, HaltView>(None),
            Err(h) => compose_member(*k, base@, member@, budget as nat, strs(old(visited)@))
                == Err::<Option<JsonView>, HaltView>(h@),
        },
        r is Ok ==> final(visited)@ == old(visited)@,
    decreases budget, 0nat, 0nat,
{
    if budget == 0 {
        return Ok(None);
    }
    match ref_schema_value(k, base, member) {
        Err(h) => Err(h),
        Ok(Some((url, target_base, target))) => {
            if contains_url(visited, url.as_str()) {
                return Ok(None);
            }
            let ghost before = visited@;
            let ghost u = url@;
            visited.push(url);
            proof {
                lemma_strs_push(before, visited@[before.len() as int]);
                assert(visited@ =~= before.push(visited@[before.len() as int]));
            }
            let composed = compose_all_of(k, target_base.as_str(), &target, budget - 1, visited);
            match composed {
                Err(h) => Err(h),
                Ok(c) => {
                    let _ = visited.pop();
                    proof {
                        assert(visited@ =~= before);
                    }
                    let chosen = match &c {
                        Some(x) => x,
                        None => &target,
                    };
                    Ok(Some(absolute_refs(chosen, target_base.as_str())))
                },
            }
        },
        Ok(None) => {
            let composed = compose_all_of(k, base, member, budget - 1, visited);
            match composed {
                Err(h) => Err(h),
                Ok(c) => {
                    let chosen = match &c {
                        Some(x) => x,
                        None => member,
                    };
                    Ok(Some(absolute_refs(chosen, base)))
                },
            }
        },
    }
}

/// Composes an `allOf` into one schema, resolving its members from what is
/// known; `None` where composition does not apply.
pub fn compose_all_of(
    k: &Knowledge,
    base: &str,
    schema: &JsonValue,
    budget: usize,
    visited: &mut Vec<String>,
) -> (r: Result<Option<JsonValue>, Halt>)
    ensures
        match r {
            Ok(Some(v)) => spec_compose_all_of(*k, base@, schema@, budget as nat, strs(old(visited)@))
                == Ok::<Option<JsonView>, HaltView>(Some(v@)),
            Ok(None) => spec_compose_all_of(*k, base@, schema@, budget as nat, strs(old(visited)@))
                == Ok::<Option<JsonView>, HaltView>(None),
            Err(h) => spec_compose_all_of(*k, base@, schema@, budget as nat, strs(old(visited)@))
                == Err::<Option<JsonView>, HaltView>(h@),
        },
        r is Ok ==> final(visited)@ == old(visited)@,
    decreases budget, 2nat, 0nat,
{
    let members = match member(schema, "allOf") {
        Some(JsonValue::Array(members)) => members,
        _ => return Ok(None),
    };
    if !composable(schema, budget) {
        return Ok(None);
    }
    let rebased = rebase(base, schema);
    let inner: &str = match &rebased {
        Some(b) => b.as_str(),
        None => base,
    };
    let ghost mv = json_items_view(members@);
    let ghost vis = strs(visited@);
    proof {
        lemma_items_view(members@);
    }
    let mut merged = JsonValue::Object(Vec::new());
    proof {
        lemma_entries_view(Seq::<(String, JsonValue)>::empty());
        assert(merged@ == JsonView::Object(Seq::empty()));
        assert(mv.take(0) =~= Seq::<JsonView>::empty());
    }
    let mut i: usize = 0;
    while i < members.len()
        invariant
            0 <= i <= members@.len(),
            mv == json_items_view(members@),
            mv.len() == members@.len(),
            forall|h: int| 0 <= h < members@.len() ==> #[trigger] mv[h] == members@[h]@,
            visited@ == old(visited)@,
            vis == strs(old(visited)@),
            budget > 0,
            view_index(schema@, "allOf"@) == JsonView::Array(mv),
            spec_composable(schema@, budget as nat),
            inner@ == match spec_rebase(base@, schema@) {
                Some(b) => b,
                None => base@,
            },
            compose_fold(*k, inner@, mv.take(i as int), budget as nat, vis) == Ok::<JsonView, HaltView>(
                merged@,
            ),
        decreases members@.len() - i,
    {
        proof {
            assert(mv.take(i + 1).drop_last() =~= mv.take(i as int));
            assert(mv.take(i + 1).last() == mv[i as int]);
        }
        let step = compose_member_exec(k, inner, &members[i], budget, visited);
        match step {
            Err(h) => {
                proof {
                    assert(compose_member(*k, inner@, mv[i as int], budget as nat, vis) == Err::<
                        Option<JsonView>,
                        HaltView,
                    >(h@));
                    assert(compose_fold(*k, inner@, mv.take(i + 1), budget as nat, vis) == Err::<
                        JsonView,
                        HaltView,
                    >(h@));
                    lemma_compose_fold_error(*k, inner@, mv, budget as nat, vis, i + 1);
                    assert(compose_fold(*k, inner@, mv, budget as nat, vis) == Err::<JsonView, HaltView>(
                        h@,
                    ));
                }
                return Err(h);
            },
            Ok(None) => {},
            Ok(Some(m)) => {
                merged = merged_all_of(&merged, &m);
            },
        }
        i += 1;
    }
    proof {
        assert(mv.take(members@.len() as int) =~= mv);
    }
    let mut carrier = absolute_refs(schema, base);
    match &mut carrier {
        JsonValue::Object(es) => {
            entries_remove(es, "allOf");
        },
        _ => {
            return Ok(None);
        },
    }
    let composed = merged_all_of(&merged, &carrier);
    let present = |key: &str| -> (b: bool)
        ensures
            b == !(view_index(composed@, key@) is Null),
        {
            match member(&composed, key) {
                Some(v) => !v.is_null(),
                None => false,
            }
        };
    if present("items") || present("prefixItems") || present("contains") || present("additionalItems")
        || present("unevaluatedItems") {
        Ok(None)
    } else {
        Ok(Some(composed))
    }
}

/// How many applicators a traversal may pass through in place (`$ref`,
/// `allOf`, `oneOf`, `anyOf`, the conditionals) before it consumes a path
/// segment: such a cycle makes no progress against the path, so composition
/// gets its own budget, reset wherever a descent consumes a segment.
pub const MAX_COMPOSITION_DEPTH: usize = 32;

/// A schema found for a path, and the full path it was found at.
pub type FoundView = (Seq<KeyOrIndex>, JsonView);

/// The schemas found so far, as the specifications read them.
pub open spec fn found_schemas(v: Seq<(Vec<KeyOrIndex>, JsonValue)>) -> Seq<FoundView> {
    v.map_values(|e: (Vec<KeyOrIndex>, JsonValue)| (e.0@, e.1@))
}

/// Whether a schema's `if` has a branch, so that its condition is asked.
pub open spec fn asks_condition(schema: JsonView) -> bool {
    !(view_index(schema, "if"@) is Null) && (!(view_index(schema, "then"@) is Null) || !(view_index(
        schema,
        "else"@,
    ) is Null))
}

/// Whether each of `branches` holds of the instance, in order, as far as is
/// known.
pub open spec fn conditions_each(k: Knowledge, base: Seq<char>, branches: Seq<JsonView>, value: JsonView) -> Result<
    Seq<Option<bool>>,
    HaltView,
>
    decreases branches.len(),
{
    if branches.len() == 0 {
        Ok(Seq::empty())
    } else {
        match conditions_each(k, base, branches.drop_last(), value) {
            Err(e) => Err(e),
            Ok(m) => match spec_condition(k, base, branches.last(), value) {
                Err(e) => Err(e),
                Ok(o) => Ok(m.push(o)),
            },
        }
    }
}

/// The schemas that apply at `path` below `schema`, for the instance
/// `value`, appended to `acc` with the full path each was found at, and
/// whether the first segment of `path` was evaluated by some applicator.
///
/// A reference is followed once per chain (`visited`); `allOf` is composed
/// where it can be; `oneOf`, `anyOf`, `allOf` and the conditionals are
/// traversed in place; then, with the path spent, the schema itself is
/// found, or else the traversal descends into what describes the next
/// segment.
pub open spec fn spec_collect(
    k: Knowledge,
    base: Seq<char>,
    schema: JsonView,
    value: JsonView,
    full: Seq<KeyOrIndex>,
    path: Seq<KeyOrIndex>,
    depth: nat,
    visited: Seq<Seq<char>>,
    acc: Seq<FoundView>,
) -> Result<(bool, Seq<FoundView>), HaltView>
    decreases path.len(), depth, 9nat, 0nat,
{
    if !(schema is Object) || depth == 0 {
        Ok((false, acc))
    } else {
        let d = (depth - 1) as nat;
        let b = match spec_rebase(base, schema) {
            Some(r) => r,
            None => base,
        };
        match view_str(view_index(schema, "$ref"@)) {
            Some(r) => match url_join(b, r) {
                None => Err(HaltView::Failed(ErrorView::NoUrl(r))),
                Some(url) => if visited.contains(url) {
                    Ok((false, acc))
                } else {
                    match spec_resolve(k, url) {
                        Err(e) => Err(e),
                        Ok((target_base, target)) => spec_collect(
                            k,
                            target_base,
                            spec_fold_siblings(target, schema, b),
                            value,
                            full,
                            path,
                            d,
                            visited.push(url),
                            acc,
                        ),
                    }
                },
            },
            None => match spec_compose_all_of(k, base, schema, d, visited) {
                Err(e) => Err(e),
                Ok(c) => one_of_stage(
                    k,
                    b,
                    base,
                    match c {
                        Some(x) => x,
                        None => schema,
                    },
                    value,
                    full,
                    path,
                    d,
                    visited,
                    acc,
                ),
            },
        }
    }
}

/// `spec_collect` for each of `list` in turn, at the same path: whether each
/// evaluated the segment, and what they found.
pub open spec fn collect_each(
    k: Knowledge,
    base: Seq<char>,
    list: Seq<JsonView>,
    value: JsonView,
    full: Seq<KeyOrIndex>,
    path: Seq<KeyOrIndex>,
    depth: nat,
    visited: Seq<Seq<char>>,
    acc: Seq<FoundView>,
) -> Result<(Seq<bool>, Seq<FoundView>), HaltView>
    decreases path.len(), depth, 10nat, list.len(),
{
    if list.len() == 0 {
        Ok((Seq::empty(), acc))
    } else {
        match collect_each(k, base, list.drop_last(), value, full, path, depth, visited, acc) {
            Err(e) => Err(e),
            Ok((coverage, a)) => match spec_collect(
                k,
                base,
                list.last(),
                value,
                full,
                path,
                depth,
                visited,
                a,
            ) {
                Err(e) => Err(e),
                Ok((c, a2)) => Ok((coverage.push(c), a2)),
            },
        }
    }
}

/// Whether some of `coverage` is set.
pub open spec fn any_set(coverage: Seq<bool>) -> bool {
    exists|i: int| 0 <= i < coverage.len() && #[trigger] coverage[i]
}

/// The branches of `kw` traversed in place; they evaluate the segment as
/// `branches_evaluated` says, asking the conditions only when some branch
/// covers it.
pub open spec fn keyword_branches(
    k: Knowledge,
    base: Seq<char>,
    schema: JsonView,
    kw: Seq<char>,
    any_of: bool,
    value: JsonView,
    full: Seq<KeyOrIndex>,
    path: Seq<KeyOrIndex>,
    depth: nat,
    visited: Seq<Seq<char>>,
    evaluated: bool,
    acc: Seq<FoundView>,
) -> Result<(bool, Seq<FoundView>), HaltView>
    decreases path.len(), depth, 14nat, 0nat,
{
    match view_index(schema, kw) {
        JsonView::Array(branches) => match collect_each(
            k,
            base,
            branches,
            value,
            full,
            path,
            depth,
            visited,
            acc,
        ) {
            Err(e) => Err(e),
            Ok((coverage, a)) => if any_set(coverage) {
                match conditions_each(k, base, branches, value) {
                    Err(e) => Err(e),
                    Ok(matches) => Ok(
                        (evaluated || spec_branches_evaluated(any_of, coverage, matches), a),
                    ),
                }
            } else {
                Ok((evaluated, a))
            },
        },
        _ => Ok((evaluated, acc)),
    }
}

/// `oneOf`, then `anyOf`, then the rest.
pub open spec fn one_of_stage(
    k: Knowledge,
    base: Seq<char>,
    enclosing: Seq<char>,
    schema: JsonView,
    value: JsonView,
    full: Seq<KeyOrIndex>,
    path: Seq<KeyOrIndex>,
    depth: nat,
    visited: Seq<Seq<char>>,
    acc: Seq<FoundView>,
) -> Result<(bool, Seq<FoundView>), HaltView>
    decreases path.len(), depth, 15nat, 0nat,
{
    match keyword_branches(k, base, schema, "oneOf"@, false, value, full, path, depth, visited, false, acc) {
        Err(e) => Err(e),
        Ok((e1, a1)) => match keyword_branches(
            k,
            base,
            schema,
            "anyOf"@,
            true,
            value,
            full,
            path,
            depth,
            visited,
            e1,
            a1,
        ) {
            Err(e) => Err(e),
            Ok((e2, a2)) => all_of_stage(k, base, enclosing, schema, value, full, path, depth, visited, e2, a2),
        },
    }
}

/// `allOf` traversed in place, each member evaluating the segment when it
/// covers it, then the conditionals.
pub open spec fn all_of_stage(
    k: Knowledge,
    base: Seq<char>,
    enclosing: Seq<char>,
    schema: JsonView,
    value: JsonView,
    full: Seq<KeyOrIndex>,
    path: Seq<KeyOrIndex>,
    depth: nat,
    visited: Seq<Seq<char>>,
    evaluated: bool,
    acc: Seq<FoundView>,
) -> Result<(bool, Seq<FoundView>), HaltView>
    decreases path.len(), depth, 13nat, 0nat,
{
    match view_index(schema, "allOf"@) {
        JsonView::Array(members) => match collect_each(
            k,
            base,
            members,
            value,
            full,
            path,
            depth,
            visited,
            acc,
        ) {
            Err(e) => Err(e),
            Ok((coverage, a)) => conditional_stage(
                k,
                base,
                enclosing,
                schema,
                value,
                full,
                path,
                depth,
                visited,
                evaluated || any_set(coverage),
                a,
            ),
        },
        _ => conditional_stage(k, base, enclosing, schema, value, full, path, depth, visited, evaluated, acc),
    }
}

/// The conditional subschemas traversed in place, then the path step.
pub open spec fn conditional_stage(
    k: Knowledge,
    base: Seq<char>,
    enclosing: Seq<char>,
    schema: JsonView,
    value: JsonView,
    full: Seq<KeyOrIndex>,
    path: Seq<KeyOrIndex>,
    depth: nat,
    visited: Seq<Seq<char>>,
    evaluated: bool,
    acc: Seq<FoundView>,
) -> Result<(bool, Seq<FoundView>), HaltView>
    decreases path.len(), depth, 12nat, 0nat,
{
    let condition = if asks_condition(schema) {
        spec_condition(k, base, view_index(schema, "if"@), value)
    } else {
        Ok(None)
    };
    match condition {
        Err(e) => Err(e),
        Ok(c) => match collect_each(
            k,
            base,
            spec_applicable_conditionals(schema, c, value),
            value,
            full,
            path,
            depth,
            visited,
            acc,
        ) {
            Err(e) => Err(e),
            Ok((coverage, a)) => path_stage(
                k,
                base,
                enclosing,
                schema,
                value,
                full,
                path,
                depth,
                evaluated || any_set(coverage),
                a,
            ),
        },
    }
}

/// With the path spent, the schema itself, its references made absolute
/// against the base around it; else the descent into what describes the next
/// segment.
pub open spec fn path_stage(
    k: Knowledge,
    base: Seq<char>,
    enclosing: Seq<char>,
    schema: JsonView,
    value: JsonView,
    full: Seq<KeyOrIndex>,
    path: Seq<KeyOrIndex>,
    depth: nat,
    evaluated: bool,
    acc: Seq<FoundView>,
) -> Result<(bool, Seq<FoundView>), HaltView>
    decreases path.len(), depth, 11nat, 0nat,
{
    if path.len() == 0 {
        Ok((false, acc.push((full, spec_absolute_refs(schema, enclosing)))))
    } else {
        let segment = path[0];
        let child_value = step_into(value, segment);
        match segment {
            KeyOrIndex::Key(key) => {
                let (descents, ev) = spec_key_subschemas(schema, key@, evaluated);
                match collect_children(
                    k,
                    base,
                    descents,
                    child_value,
                    full.push(segment),
                    path.drop_first(),
                    acc,
                ) {
                    Err(e) => Err(e),
                    Ok(a) => Ok((ev, a)),
                }
            },
            KeyOrIndex::Index(i) => {
                let item = spec_item_schema(schema, i as nat);
                match spec_collect(
                    k,
                    base,
                    item,
                    child_value,
                    full.push(segment),
                    path.drop_first(),
                    MAX_COMPOSITION_DEPTH as nat,
                    Seq::empty(),
                    acc,
                ) {
                    Err(e) => Err(e),
                    Ok((_, a1)) => {
                        let holds = if view_index(schema, "contains"@) is Null {
                            Ok(None)
                        } else {
                            spec_condition(k, base, view_index(schema, "contains"@), child_value)
                        };
                        match holds {
                            Err(e) => Err(e),
                            Ok(h) => {
                                let (descents, ev) = spec_index_subschemas(schema, i as nat, evaluated, h);
                                if descents.len() > 1 {
                                    match spec_collect(
                                        k,
                                        base,
                                        descents[1],
                                        child_value,
                                        full.push(segment),
                                        path.drop_first(),
                                        MAX_COMPOSITION_DEPTH as nat,
                                        Seq::empty(),
                                        a1,
                                    ) {
                                        Err(e) => Err(e),
                                        Ok((_, a2)) => Ok((ev, a2)),
                                    }
                                } else {
                                    Ok((ev, a1))
                                }
                            },
                        }
                    },
                }
            },
        }
    }
}

/// The descent into each of `list` for the next segment: a fresh
/// composition budget and chain, the instance and path one step further.
pub open spec fn collect_children(
    k: Knowledge,
    base: Seq<char>,
    list: Seq<JsonView>,
    value: JsonView,
    full: Seq<KeyOrIndex>,
    path: Seq<KeyOrIndex>,
    acc: Seq<FoundView>,
) -> Result<Seq<FoundView>, HaltView>
    decreases path.len() + 1, 0nat, 0nat, list.len(),
{
    if list.len() == 0 {
        Ok(acc)
    } else {
        match collect_children(k, base, list.drop_last(), value, full, path, acc) {
            Err(e) => Err(e),
            Ok(a) => match spec_collect(
                k,
                base,
                list.last(),
                value,
                full,
                path,
                MAX_COMPOSITION_DEPTH as nat,
                Seq::empty(),
                a,
            ) {
                Err(e) => Err(e),
                Ok((_, a2)) => Ok(a2),
            },
        }
    }
}

/// The views of borrowed values, in order.
pub open spec fn refs_view(v: Seq<&JsonValue>) -> Seq<JsonView> {
    v.map_values(|x: &JsonValue| x@)
}

/// Borrows each item of an array.
fn refs_of<'a>(items: &'a Vec<JsonValue>) -> (r: Vec<&'a JsonValue>)
    ensures
        refs_view(r@) == json_items_view(items@),
{
    proof {
        lemma_items_view(items@);
    }
    let mut out: Vec<&'a JsonValue> = Vec::new();
    let mut i: usize = 0;
    while i < items.len()
        invariant
            0 <= i <= items@.len(),
            out@.len() == i,
            json_items_view(items@).len() == items@.len(),
            forall|h: int| 0 <= h < items@.len() ==> #[trigger] json_items_view(items@)[h] == items@[h]@,
            forall|h: int| 0 <= h < i ==> (#[trigger] out@[h])@ == items@[h]@,
        decreases items@.len() - i,
    {
        out.push(&items[i]);
        i += 1;
    }
    assert(refs_view(out@) =~= json_items_view(items@));
    out
}

/// A copy of a path from position `from` on.
pub(crate) fn keys_from(keys: &Vec<KeyOrIndex>, from: usize) -> (r: Vec<KeyOrIndex>)
    requires
        from <= keys@.len(),
    ensures
        r@ == keys@.skip(from as int),
{
    let mut out: Vec<KeyOrIndex> = Vec::new();
    let mut i: usize = from;
    while i < keys.len()
        invariant
            from <= i <= keys@.len(),
            out@ == keys@.subrange(from as int, i as int),
        decreases keys@.len() - i,
    {
        let step = match &keys[i] {
            KeyOrIndex::Key(k) => KeyOrIndex::Key(k.clone()),
            KeyOrIndex::Index(n) => KeyOrIndex::Index(*n),
        };
        assert(step == keys@[i as int]);
        out.push(step);
        i += 1;
        assert(out@ =~= keys@.subrange(from as int, i as int));
    }
    assert(keys@.subrange(from as int, keys@.len() as int) =~= keys@.skip(from as int));
    out
}

/// A copy of a path with one more segment.
fn keys_with(keys: &Vec<KeyOrIndex>, segment: &KeyOrIndex) -> (r: Vec<KeyOrIndex>)
    ensures
        r@ == keys@.push(*segment),
{
    let mut out = keys_from(keys, 0);
    assert(keys@.skip(0) =~= keys@);
    let step = match segment {
        KeyOrIndex::Key(k) => KeyOrIndex::Key(k.clone()),
        KeyOrIndex::Index(n) => KeyOrIndex::Index(*n),
    };
    out.push(step);
    out
}

proof fn lemma_collect_each_error(
    k: Knowledge,
    base: Seq<char>,
    list: Seq<JsonView>,
    value: JsonView,
    full: Seq<KeyOrIndex>,
    path: Seq<KeyOrIndex>,
    depth: nat,
    visited: Seq<Seq<char>>,
    acc: Seq<FoundView>,
    j: int,
)
    requires
        0 <= j <= list.len(),
        collect_each(k, base, list.take(j), value, full, path, depth, visited, acc) is Err,
    ensures
        collect_each(k, base, list, value, full, path, depth, visited, acc) == collect_each(
            k,
            base,
            list.take(j),
            value,
            full,
            path,
            depth,
            visited,
            acc,
        ),
    decreases list.len() - j,
{
    if j < list.len() {
        assert(list.take(j + 1).drop_last() =~= list.take(j));
        lemma_collect_each_error(k, base, list, value, full, path, depth, visited, acc, j + 1);
    } else {
        assert(list.take(j) =~= list);
    }
}

proof fn lemma_conditions_each_error(k: Knowledge, base: Seq<char>, branches: Seq<JsonView>, value: JsonView, j: int)
    requires
        0 <= j <= branches.len(),
        conditions_each(k, base, branches.take(j), value) is Err,
    ensures
        conditions_each(k, base, branches, value) == conditions_each(k, base, branches.take(j), value),
    decreases branches.len() - j,
{
    if j < branches.len() {
        assert(branches.take(j + 1).drop_last() =~= branches.take(j));
        lemma_conditions_each_error(k, base, branches, value, j + 1);
    } else {
        assert(branches.take(j) =~= branches);
    }
}

proof fn lemma_collect_children_error(
    k: Knowledge,
    base: Seq<char>,
    list: Seq<JsonView>,
    value: JsonView,
    full: Seq<KeyOrIndex>,
    path: Seq<KeyOrIndex>,
    acc: Seq<FoundView>,
    j: int,
)
    requires
        0 <= j <= list.len(),
        collect_children(k, base, list.take(j), value, full, path, acc) is Err,
    ensures
        collect_children(k, base, list, value, full, path, acc) == collect_children(
            k,
            base,
            list.take(j),
            value,
            full,
            path,
            acc,
        ),
    decreases list.len() - j,
{
    if j < list.len() {
        assert(list.take(j + 1).drop_last() =~= list.take(j));
        lemma_collect_children_error(k, base, list, value, full, path, acc, j + 1);
    } else {
        assert(list.take(j) =~= list);
    }
}

/// Whether each of `branches` holds of the instance, as far as is known.
fn conditions_each_exec(k: &Knowledge, base: &str, branches: &Vec<&JsonValue>, value: &JsonValue) -> (r: Result<
    Vec<Option<bool>>,
    Halt,
>)
    ensures
        match r {
            Ok(m) => conditions_each(*k, base@, refs_view(branches@), value@) == Ok::<
                Seq<Option<bool>>,
                HaltView,
            >(m@),
            Err(h) => conditions_each(*k, base@, refs_view(branches@), value@) == Err::<
                Seq<Option<bool>>,
                HaltView,
            >(h@),
        },
{
    let ghost lv = refs_view(branches@);
    let mut matches: Vec<Option<bool>> = Vec::new();
    let mut i: usize = 0;
    assert(lv.take(0) =~= Seq::<JsonView>::empty());
    while i < branches.len()
        invariant
            0 <= i <= branches@.len(),
            lv == refs_view(branches@),
            conditions_each(*k, base@, lv.take(i as int), value@) == Ok::<Seq<Option<bool>>, HaltView>(
                matches@,
            ),
        decreases branches@.len() - i,
    {
        proof {
            assert(lv.take(i + 1).drop_last() =~= lv.take(i as int));
            assert(lv.take(i + 1).last() == branches@[i as int]@);
        }
        match condition_holds(k, base, branches[i], value) {
            Err(h) => {
                proof {
                    lemma_conditions_each_error(*k, base@, lv, value@, i + 1);
                }
                return Err(h);
            },
            Ok(o) => {
                matches.push(o);
            },
        }
        i += 1;
    }
    proof {
        assert(lv.take(branches@.len() as int) =~= lv);
    }
    Ok(matches)
}

/// Whether an outcome is what the specification gives: the same halt, or
/// the same answer with what was found since.
pub open spec fn outcome_matches<T>(r: Result<T, Halt>, spec: Result<(T, Seq<FoundView>), HaltView>, found: Seq<FoundView>) -> bool {
    match r {
        Ok(e) => spec == Ok::<(T, Seq<FoundView>), HaltView>((e, found)),
        Err(h) => spec == Err::<(T, Seq<FoundView>), HaltView>(h@),
    }
}

/// Whether some of `v` is set.
fn any_true(v: &Vec<bool>) -> (r: bool)
    ensures
        r == any_set(v@),
{
    let mut i: usize = 0;
    while i < v.len()
        invariant
            0 <= i <= v@.len(),
            forall|h: int| 0 <= h < i ==> !(#[trigger] v@[h]),
        decreases v@.len() - i,
    {
        if v[i] {
            return true;
        }
        i += 1;
    }
    false
}

/// The part of an instance one segment selects.
fn step<'v>(value: &'v JsonValue, segment: &KeyOrIndex) -> (r: &'v JsonValue)
    ensures
        r@ == step_into(value@, *segment),
{
    match segment {
        KeyOrIndex::Key(k) => match member(value, k.as_str()) {
            Some(m) => m,
            None => &JsonValue::Null,
        },
        KeyOrIndex::Index(idx) => match value {
            JsonValue::Array(xs) => {
                proof {
                    lemma_items_view(xs@);
                }
                if *idx < xs.len() {
                    &xs[*idx]
                } else {
                    &JsonValue::Null
                }
            },
            _ => &JsonValue::Null,
        },
    }
}

proof fn lemma_collect_each_len(
    k: Knowledge,
    base: Seq<char>,
    list: Seq<JsonView>,
    value: JsonView,
    full: Seq<KeyOrIndex>,
    path: Seq<KeyOrIndex>,
    depth: nat,
    visited: Seq<Seq<char>>,
    acc: Seq<FoundView>,
)
    requires
        collect_each(k, base, list, value, full, path, depth, visited, acc) is Ok,
    ensures
        collect_each(k, base, list, value, full, path, depth, visited, acc)->Ok_0.0.len() == list.len(),
    decreases list.len(),
{
    if list.len() > 0 {
        lemma_collect_each_len(k, base, list.drop_last(), value, full, path, depth, visited, acc);
    }
}

proof fn lemma_conditions_each_len(k: Knowledge, base: Seq<char>, branches: Seq<JsonView>, value: JsonView)
    requires
        conditions_each(k, base, branches, value) is Ok,
    ensures
        conditions_each(k, base, branches, value)->Ok_0.len() == branches.len(),
    decreases branches.len(),
{
    if branches.len() > 0 {
        lemma_conditions_each_len(k, base, branches.drop_last(), value);
    }
}

/// Traverses each of `list` in place, in turn.
fn collect_each_exec(
    k: &Knowledge,
    base: &str,
    list: &Vec<&JsonValue>,
    value: &JsonValue,
    full: &Vec<KeyOrIndex>,
    path: &Vec<KeyOrIndex>,
    depth: usize,
    visited: &mut Vec<String>,
    acc: &mut Vec<(Vec<KeyOrIndex>, JsonValue)>,
) -> (r: Result<Vec<bool>, Halt>)
    ensures
        match r {
            Ok(c) => collect_each(
                *k,
                base@,
                refs_view(list@),
                value@,
                full@,
                path@,
                depth as nat,
                strs(old(visited)@),
                found_schemas(old(acc)@),
            ) == Ok::<(Seq<bool>, Seq<FoundView>), HaltView>((c@, found_schemas(final(acc)@))),
            Err(h) => collect_each(
                *k,
                base@,
                refs_view(list@),
                value@,
                full@,
                path@,
                depth as nat,
                strs(old(visited)@),
                found_schemas(old(acc)@),
            ) == Err::<(Seq<bool>, Seq<FoundView>), HaltView>(h@),
        },
        r is Ok ==> final(visited)@ == old(visited)@,
    decreases path@.len(), depth, 10nat, list@.len(),
{
    let ghost lv = refs_view(list@);
    let ghost vis = strs(visited@);
    let ghost acc0 = found_schemas(acc@);
    let mut coverage: Vec<bool> = Vec::new();
    let mut i: usize = 0;
    assert(lv.take(0) =~= Seq::<JsonView>::empty());
    while i < list.len()
        invariant
            0 <= i <= list@.len(),
            lv == refs_view(list@),
            visited@ == old(visited)@,
            vis == strs(old(visited)@),
            acc0 == found_schemas(old(acc)@),
            collect_each(*k, base@, lv.take(i as int), value@, full@, path@, depth as nat, vis, acc0)
                == Ok::<(Seq<bool>, Seq<FoundView>), HaltView>((coverage@, found_schemas(acc@))),
        decreases list@.len() - i,
    {
        proof {
            assert(lv.take(i + 1).drop_last() =~= lv.take(i as int));
            assert(lv.take(i + 1).last() == list@[i as int]@);
        }
        match collect_schemas(k, base, list[i], value, full, path, depth, visited, acc) {
            Err(h) => {
                proof {
                    lemma_collect_each_error(
                        *k,
                        base@,
                        lv,
                        value@,
                        full@,
                        path@,
                        depth as nat,
                        vis,
                        acc0,
                        i + 1,
                    );
                }
                return Err(h);
            },
            Ok(c) => {
                coverage.push(c);
            },
        }
        i += 1;
    }
    proof {
        assert(lv.take(list@.len() as int) =~= lv);
    }
    Ok(coverage)
}

/// Traverses each of `list` for the next segment.
fn collect_children_exec(
    k: &Knowledge,
    base: &str,
    list: &Vec<&JsonValue>,
    value: &JsonValue,
    full: &Vec<KeyOrIndex>,
    path: &Vec<KeyOrIndex>,
    acc: &mut Vec<(Vec<KeyOrIndex>, JsonValue)>,
) -> (r: Result<(), Halt>)
    ensures
        match r {
            Ok(_) => collect_children(
                *k,
                base@,
                refs_view(list@),
                value@,
                full@,
                path@,
                found_schemas(old(acc)@),
            ) == Ok::<Seq<FoundView>, HaltView>(found_schemas(final(acc)@)),
            Err(h) => collect_children(
                *k,
                base@,
                refs_view(list@),
                value@,
                full@,
                path@,
                found_schemas(old(acc)@),
            ) == Err::<Seq<FoundView>, HaltView>(h@),
        },
    decreases path@.len() + 1, 0nat, 0nat, list@.len(),
{
    let ghost lv = refs_view(list@);
    let ghost acc0 = found_schemas(acc@);
    let mut i: usize = 0;
    assert(lv.take(0) =~= Seq::<JsonView>::empty());
    while i < list.len()
        invariant
            0 <= i <= list@.len(),
            lv == refs_view(list@),
            acc0 == found_schemas(old(acc)@),
            collect_children(*k, base@, lv.take(i as int), value@, full@, path@, acc0) == Ok::<
                Seq<FoundView>,
                HaltView,
            >(found_schemas(acc@)),
        decreases list@.len() - i,
    {
        proof {
            assert(lv.take(i + 1).drop_last() =~= lv.take(i as int));
            assert(lv.take(i + 1).last() == list@[i as int]@);
        }
        let mut fresh: Vec<String> = Vec::new();
        proof {
            assert(strs(fresh@) =~= Seq::<Seq<char>>::empty());
        }
        match collect_schemas(k, base, list[i], value, full, path, MAX_COMPOSITION_DEPTH, &mut fresh, acc) {
            Err(h) => {
                proof {
                    lemma_collect_children_error(*k, base@, lv, value@, full@, path@, acc0, i + 1);
                }
                return Err(h);
            },
            Ok(_) => {},
        }
        i += 1;
    }
    proof {
        assert(lv.take(list@.len() as int) =~= lv);
    }
    Ok(())
}

/// The branches of `kw` traversed in place.
fn keyword_branches_exec(
    k: &Knowledge,
    base: &str,
    schema: &JsonValue,
    kw: &str,
    any_of: bool,
    value: &JsonValue,
    full: &Vec<KeyOrIndex>,
    path: &Vec<KeyOrIndex>,
    depth: usize,
    visited: &mut Vec<String>,
    evaluated: bool,
    acc: &mut Vec<(Vec<KeyOrIndex>, JsonValue)>,
) -> (r: Result<bool, Halt>)
    ensures
        outcome_matches(
            r,
            keyword_branches(
                *k,
                base@,
                schema@,
                kw@,
                any_of,
                value@,
                full@,
                path@,
                depth as nat,
                strs(old(visited)@),
                evaluated,
                found_schemas(old(acc)@),
            ),
            found_schemas(final(acc)@),
        ),
        r is Ok ==> final(visited)@ == old(visited)@,
    decreases path@.len(), depth, 14nat, 0nat,
{
    let branches = match member(schema, kw) {
        Some(JsonValue::Array(items)) => items,
        _ => return Ok(evaluated),
    };
    let list = refs_of(branches);
    let coverage = match collect_each_exec(k, base, &list, value, full, path, depth, visited, acc) {
        Ok(c) => c,
        Err(h) => return Err(h),
    };
    if !any_true(&coverage) {
        return Ok(evaluated);
    }
    let matches = match conditions_each_exec(k, base, &list, value) {
        Ok(m) => m,
        Err(h) => return Err(h),
    };
    proof {
        lemma_collect_each_len(
            *k,
            base@,
            refs_view(list@),
            value@,
            full@,
            path@,
            depth as nat,
            strs(old(visited)@),
            found_schemas(old(acc)@),
        );
        lemma_conditions_each_len(*k, base@, refs_view(list@), value@);
    }
    Ok(evaluated || branches_evaluated(any_of, &coverage, &matches))
}

/// `oneOf`, then `anyOf`, then the rest.
fn one_of_stage_exec(
    k: &Knowledge,
    base: &str,
    enclosing: &str,
    schema: &JsonValue,
    value: &JsonValue,
    full: &Vec<KeyOrIndex>,
    path: &Vec<KeyOrIndex>,
    depth: usize,
    visited: &mut Vec<String>,
    acc: &mut Vec<(Vec<KeyOrIndex>, JsonValue)>,
) -> (r: Result<bool, Halt>)
    ensures
        outcome_matches(
            r,
            one_of_stage(
                *k,
                base@,
                enclosing@,
                schema@,
                value@,
                full@,
                path@,
                depth as nat,
                strs(old(visited)@),
                found_schemas(old(acc)@),
            ),
            found_schemas(final(acc)@),
        ),
        r is Ok ==> final(visited)@ == old(visited)@,
    decreases path@.len(), depth, 15nat, 0nat,
{
    let e1 = match keyword_branches_exec(
        k,
        base,
        schema,
        "oneOf",
        false,
        value,
        full,
        path,
        depth,
        visited,
        false,
        acc,
    ) {
        Ok(e) => e,
        Err(h) => return Err(h),
    };
    let e2 = match keyword_branches_exec(k, base, schema, "anyOf", true, value, full, path, depth, visited, e1, acc) {
        Ok(e) => e,
        Err(h) => return Err(h),
    };
    all_of_stage_exec(k, base, enclosing, schema, value, full, path, depth, visited, e2, acc)
}

/// `allOf` traversed in place, then the conditionals.
fn all_of_stage_exec(
    k: &Knowledge,
    base: &str,
    enclosing: &str,
    schema: &JsonValue,
    value: &JsonValue,
    full: &Vec<KeyOrIndex>,
    path: &Vec<KeyOrIndex>,
    depth: usize,
    visited: &mut Vec<String>,
    evaluated: bool,
    acc: &mut Vec<(Vec<KeyOrIndex>, JsonValue)>,
) -> (r: Result<bool, Halt>)
    ensures
        outcome_matches(
            r,
            all_of_stage(
                *k,
                base@,
                enclosing@,
                schema@,
                value@,
                full@,
                path@,
                depth as nat,
                strs(old(visited)@),
                evaluated,
                found_schemas(old(acc)@),
            ),
            found_schemas(final(acc)@),
        ),
        r is Ok ==> final(visited)@ == old(visited)@,
    decreases path@.len(), depth, 13nat, 0nat,
{
    match member(schema, "allOf") {
        Some(JsonValue::Array(items)) => {
            let list = refs_of(items);
            let coverage = match collect_each_exec(k, base, &list, value, full, path, depth, visited, acc) {
                Ok(c) => c,
                Err(h) => return Err(h),
            };
            let e = evaluated || any_true(&coverage);
            conditional_stage_exec(k, base, enclosing, schema, value, full, path, depth, visited, e, acc)
        },
        _ => conditional_stage_exec(k, base, enclosing, schema, value, full, path, depth, visited, evaluated, acc),
    }
}

/// The conditional subschemas traversed in place, then the path step.
fn conditional_stage_exec(
    k: &Knowledge,
    base: &str,
    enclosing: &str,
    schema: &JsonValue,
    value: &JsonValue,
    full: &Vec<KeyOrIndex>,
    path: &Vec<KeyOrIndex>,
    depth: usize,
    visited: &mut Vec<String>,
    evaluated: bool,
    acc: &mut Vec<(Vec<KeyOrIndex>, JsonValue)>,
) -> (r: Result<bool, Halt>)
    ensures
        outcome_matches(
            r,
            conditional_stage(
                *k,
                base@,
                enclosing@,
                schema@,
                value@,
                full@,
                path@,
                depth as nat,
                strs(old(visited)@),
                evaluated,
                found_schemas(old(acc)@),
            ),
            found_schemas(final(acc)@),
        ),
        r is Ok ==> final(visited)@ == old(visited)@,
    decreases path@.len(), depth, 12nat, 0nat,
{
    let condition = if needs_condition(schema) {
        let if_schema: &JsonValue = match member(schema, "if") {
            Some(c) => c,
            None => &JsonValue::Null,
        };
        match condition_holds(k, base, if_schema, value) {
            Ok(c) => c,
            Err(h) => return Err(h),
        }
    } else {
        None
    };
    let list = applicable_conditionals(schema, condition, value);
    proof {
        assert(refs_view(list@) =~= spec_applicable_conditionals(schema@, condition, value@));
    }
    let coverage = match collect_each_exec(k, base, &list, value, full, path, depth, visited, acc) {
        Ok(c) => c,
        Err(h) => return Err(h),
    };
    let e = evaluated || any_true(&coverage);
    path_stage_exec(k, base, enclosing, schema, value, full, path, depth, e, acc)
}

/// The schema itself when the path is spent, else the descent into what
/// describes the next segment.
fn path_stage_exec(
    k: &Knowledge,
    base: &str,
    enclosing: &str,
    schema: &JsonValue,
    value: &JsonValue,
    full: &Vec<KeyOrIndex>,
    path: &Vec<KeyOrIndex>,
    depth: usize,
    evaluated: bool,
    acc: &mut Vec<(Vec<KeyOrIndex>, JsonValue)>,
) -> (r: Result<bool, Halt>)
    ensures
        outcome_matches(
            r,
            path_stage(
                *k,
                base@,
                enclosing@,
                schema@,
                value@,
                full@,
                path@,
                depth as nat,
                evaluated,
                found_schemas(old(acc)@),
            ),
            found_schemas(final(acc)@),
        ),
    decreases path@.len(), depth, 11nat, 0nat,
{
    if path.len() == 0 {
        let found = absolute_refs(schema, enclosing);
        let keys = keys_from(full, 0);
        proof {
            assert(full@.skip(0) =~= full@);
        }
        let ghost before = acc@;
        acc.push((keys, found));
        proof {
            assert(found_schemas(acc@) =~= found_schemas(before).push((full@, found@)));
        }
        return Ok(false);
    }
    let segment = &path[0];
    let child_value = step(value, segment);
    let child_full = keys_with(full, segment);
    let child_path = keys_from(path, 1);
    proof {
        assert(child_path@ =~= path@.drop_first());
    }
    match segment {
        KeyOrIndex::Key(key) => {
            let (descents, ev) = key_subschemas(schema, key.as_str(), evaluated);
            proof {
                assert(refs_view(descents@) =~= spec_key_subschemas(schema@, key@, evaluated).0);
            }
            match collect_children_exec(k, base, &descents, child_value, &child_full, &child_path, acc) {
                Ok(_) => Ok(ev),
                Err(h) => Err(h),
            }
        },
        KeyOrIndex::Index(i) => {
            let item = item_schema(schema, *i);
            let mut fresh: Vec<String> = Vec::new();
            proof {
                assert(strs(fresh@) =~= Seq::<Seq<char>>::empty());
            }
            match collect_schemas(
                k,
                base,
                item,
                child_value,
                &child_full,
                &child_path,
                MAX_COMPOSITION_DEPTH,
                &mut fresh,
                acc,
            ) {
                Ok(_) => {},
                Err(h) => return Err(h),
            }
            let holds = match member(schema, "contains") {
                Some(c) => if c.is_null() {
                    None
                } else {
                    match condition_holds(k, base, c, child_value) {
                        Ok(h) => h,
                        Err(h) => return Err(h),
                    }
                },
                None => None,
            };
            let (descents, ev) = index_subschemas(schema, *i, evaluated, holds);
            if descents.len() > 1 {
                let mut fresh2: Vec<String> = Vec::new();
                proof {
                    assert(strs(fresh2@) =~= Seq::<Seq<char>>::empty());
                }
                match collect_schemas(
                    k,
                    base,
                    descents[1],
                    child_value,
                    &child_full,
                    &child_path,
                    MAX_COMPOSITION_DEPTH,
                    &mut fresh2,
                    acc,
                ) {
                    Ok(_) => {},
                    Err(h) => return Err(h),
                }
            }
            Ok(ev)
        },
    }
}

/// Collects the schemas that apply at `path` below `schema` for the instance
/// `value`, appending each to `acc` with the full path it was found at, from
/// what is known; whether the first segment of `path` was evaluated by some
/// applicator. It stops, saying what it needs or why it failed, where what is
/// known does not reach.
pub fn collect_schemas(
    k: &Knowledge,
    base: &str,
    schema: &JsonValue,
    value: &JsonValue,
    full: &Vec<KeyOrIndex>,
    path: &Vec<KeyOrIndex>,
    depth: usize,
    visited: &mut Vec<String>,
    acc: &mut Vec<(Vec<KeyOrIndex>, JsonValue)>,
) -> (r: Result<bool, Halt>)
    ensures
        outcome_matches(
            r,
            spec_collect(
                *k,
                base@,
                schema@,
                value@,
                full@,
                path@,
                depth as nat,
                strs(old(visited)@),
                found_schemas(old(acc)@),
            ),
            found_schemas(final(acc)@),
        ),
        r is Ok ==> final(visited)@ == old(visited)@,
    decreases path@.len(), depth, 9nat, 0nat,
{
    let is_object = match schema {
        JsonValue::Object(_) => true,
        _ => false,
    };
    if !is_object || depth == 0 {
        return Ok(false);
    }
    let d = depth - 1;
    let rebased = rebase(base, schema);
    let b: &str = match &rebased {
        Some(x) => x.as_str(),
        None => base,
    };
    match str_member(schema, "$ref") {
        Some(r) => {
            let url = match reference_url(b, r) {
                Some(u) => u,
                None => return Err(Halt::Failed(TraversalError::NoUrl(r.to_owned()))),
            };
            if contains_url(visited, url.as_str()) {
                return Ok(false);
            }
            let (target_base, target) = match resolve(k, url.as_str()) {
                Ok(found) => found,
                Err(h) => return Err(h),
            };
            let merged = fold_siblings(&target, schema, b);
            let ghost before = visited@;
            visited.push(url);
            proof {
                lemma_strs_push(before, visited@[before.len() as int]);
                assert(visited@ =~= before.push(visited@[before.len() as int]));
            }
            match collect_schemas(k, target_base.as_str(), &merged, value, full, path, d, visited, acc) {
                Ok(e) => {
                    let _ = visited.pop();
                    proof {
                        assert(visited@ =~= before);
                    }
                    Ok(e)
                },
                Err(h) => Err(h),
            }
        },
        None => {
            let composed = match compose_all_of(k, base, schema, d, visited) {
                Ok(c) => c,
                Err(h) => return Err(h),
            };
            let s: &JsonValue = match &composed {
                Some(x) => x,
                None => schema,
            };
            one_of_stage_exec(k, b, base, s, value, full, path, d, visited, acc)
        },
    }
}

/// Whether two paths name the same segments.
pub open spec fn same_path(a: Seq<KeyOrIndex>, b: Seq<KeyOrIndex>) -> bool {
    a.len() == b.len() && forall|i: int| 0 <= i < a.len() ==> #[trigger] same_segment(a[i], b[i])
}

/// Whether two segments are the same key or the same position.
pub open spec fn same_segment(a: KeyOrIndex, b: KeyOrIndex) -> bool {
    match (a, b) {
        (KeyOrIndex::Key(x), KeyOrIndex::Key(y)) => x@ == y@,
        (KeyOrIndex::Index(x), KeyOrIndex::Index(y)) => x == y,
        _ => false,
    }
}

/// Whether `kept` already holds a schema equal to `x` at the same path.
pub open spec fn holds_found(kept: Seq<FoundView>, x: FoundView) -> bool {
    exists|j: int| 0 <= j < kept.len() && same_path(#[trigger] kept[j].0, x.0) && view_eq(kept[j].1, x.1)
}

/// `found` without the entries an earlier kept one equals, path and schema.
pub open spec fn unique_found(found: Seq<FoundView>) -> Seq<FoundView>
    decreases found.len(),
{
    if found.len() == 0 {
        Seq::empty()
    } else {
        let kept = unique_found(found.drop_last());
        if holds_found(kept, found.last()) {
            kept
        } else {
            kept.push(found.last())
        }
    }
}

/// Whether two paths name the same segments.
fn paths_equal(a: &Vec<KeyOrIndex>, b: &Vec<KeyOrIndex>) -> (r: bool)
    ensures
        r == same_path(a@, b@),
{
    if a.len() != b.len() {
        return false;
    }
    let mut i: usize = 0;
    while i < a.len()
        invariant
            0 <= i <= a@.len(),
            a@.len() == b@.len(),
            forall|h: int| 0 <= h < i ==> #[trigger] same_segment(a@[h], b@[h]),
        decreases a@.len() - i,
    {
        let same = match (&a[i], &b[i]) {
            (KeyOrIndex::Key(x), KeyOrIndex::Key(y)) => str_equals(x.as_str(), y.as_str()),
            (KeyOrIndex::Index(x), KeyOrIndex::Index(y)) => *x == *y,
            _ => false,
        };
        if !same {
            assert(!same_segment(a@[i as int], b@[i as int]));
            return false;
        }
        i += 1;
    }
    true
}

/// No two entries of `u` have the same path and equal schemas.
pub open spec fn found_distinct(u: Seq<FoundView>) -> bool {
    forall|i: int, j: int|
        #![trigger u[i], u[j]]
        0 <= i < j < u.len() ==> !(same_path(u[i].0, u[j].0) && view_eq(u[i].1, u[j].1))
}

/// A path is the same as itself.
proof fn lemma_same_path_reflexive(p: Seq<KeyOrIndex>)
    ensures
        same_path(p, p),
{
    assert forall|i: int| 0 <= i < p.len() implies #[trigger] same_segment(p[i], p[i]) by {
        match p[i] {
            KeyOrIndex::Key(_) => {},
            KeyOrIndex::Index(_) => {},
        }
    }
}

/// Dropping repeats keeps one of each: what is kept has no two equal
/// entries, every entry has an equal one kept, and nothing else is kept.
pub proof fn unique_found_keeps_one_of_each(found: Seq<FoundView>)
    ensures
        found_distinct(unique_found(found)),
        forall|i: int| 0 <= i < found.len() ==> holds_found(unique_found(found), #[trigger] found[i]),
        forall|j: int| 0 <= j < unique_found(found).len() ==> found.contains(#[trigger] unique_found(found)[j]),
    decreases found.len(),
{
    if found.len() > 0 {
        let prev = found.drop_last();
        let x = found.last();
        unique_found_keeps_one_of_each(prev);
        let kept = unique_found(prev);
        let r = unique_found(found);
        assert forall|j: int| 0 <= j < kept.len() implies found.contains(#[trigger] kept[j]) by {
            assert(prev.contains(kept[j]));
            let w = choose|w: int| 0 <= w < prev.len() && prev[w] == kept[j];
            assert(found[w] == prev[w]);
        }
        if holds_found(kept, x) {
            assert(r == kept);
            assert forall|i: int| 0 <= i < found.len() implies holds_found(r, #[trigger] found[i]) by {
                if i < found.len() - 1 {
                    assert(found[i] == prev[i]);
                }
            }
        } else {
            assert(r == kept.push(x));
            assert forall|i: int, j: int| #![trigger r[i], r[j]] 0 <= i < j < r.len() implies !(same_path(
                r[i].0,
                r[j].0,
            ) && view_eq(r[i].1, r[j].1)) by {
                if j < kept.len() {
                    assert(r[i] == kept[i] && r[j] == kept[j]);
                } else {
                    assert(r[i] == kept[i] && r[j] == x);
                }
            }
            assert forall|i: int| 0 <= i < found.len() implies holds_found(r, #[trigger] found[i]) by {
                if i < found.len() - 1 {
                    assert(found[i] == prev[i]);
                    let w = choose|w: int| 0 <= w < kept.len() && same_path(#[trigger] kept[w].0, prev[i].0)
                        && view_eq(kept[w].1, prev[i].1);
                    assert(r[w] == kept[w]);
                } else {
                    lemma_same_path_reflexive(x.0);
                    lemma_view_eq_reflexive(x.1);
                    assert(r[kept.len() as int] == x);
                }
            }
            assert forall|j: int| 0 <= j < r.len() implies found.contains(#[trigger] r[j]) by {
                if j < kept.len() {
                    assert(r[j] == kept[j]);
                } else {
                    assert(found[found.len() - 1] == x);
                }
            }
        }
    }
}

/// `schemas_at_path` lists each schema once: no two of the entries it
/// returns have the same path and equal schemas.
pub proof fn schemas_at_path_lists_each_once(
    k: Knowledge,
    schema_url: Seq<char>,
    value: JsonView,
    path: Seq<KeyOrIndex>,
)
    requires
        spec_schemas_at_path(k, schema_url, value, path) is Ok,
    ensures
        found_distinct(spec_schemas_at_path(k, schema_url, value, path)->Ok_0),
{
    if let Ok(schema) = spec_load(k, schema_url) {
        if let Ok((_, found)) = spec_collect(
            k,
            schema_url,
            schema,
            value,
            Seq::empty(),
            path,
            MAX_COMPOSITION_DEPTH as nat,
            Seq::empty(),
            Seq::empty(),
        ) {
            unique_found_keeps_one_of_each(found);
        }
    }
}

/// Keeps the first of each group of equal found schemas, path and value.
pub fn dedup_found(found: Vec<(Vec<KeyOrIndex>, JsonValue)>) -> (r: Vec<(Vec<KeyOrIndex>, JsonValue)>)
    ensures
        found_schemas(r@) == unique_found(found_schemas(found@)),
{
    let ghost fv = found_schemas(found@);
    let mut kept: Vec<(Vec<KeyOrIndex>, JsonValue)> = Vec::new();
    let mut i: usize = 0;
    assert(fv.take(0) =~= Seq::<FoundView>::empty());
    assert(found_schemas(kept@) =~= Seq::<FoundView>::empty());
    while i < found.len()
        invariant
            0 <= i <= found@.len(),
            fv == found_schemas(found@),
            found_schemas(kept@) == unique_found(fv.take(i as int)),
        decreases found@.len() - i,
    {
        proof {
            assert(fv.take(i + 1).drop_last() =~= fv.take(i as int));
            assert(fv.take(i + 1).last() == fv[i as int]);
        }
        let mut seen = false;
        let mut j: usize = 0;
        while j < kept.len()
            invariant
                0 <= j <= kept@.len(),
                0 <= i < found@.len(),
                seen == exists|h: int| 0 <= h < j && same_path(#[trigger] found_schemas(kept@)[h].0, fv[i as int].0)
                    && view_eq(found_schemas(kept@)[h].1, fv[i as int].1),
                fv == found_schemas(found@),
            decreases kept@.len() - j,
        {
            let same = paths_equal(&kept[j].0, &found[i].0) && json_equals(&kept[j].1, &found[i].1);
            proof {
                lemma_json_eq_view(kept@[j as int].1, found@[i as int].1);
                assert(found_schemas(kept@)[j as int] == (kept@[j as int].0@, kept@[j as int].1@));
                assert(fv[i as int] == (found@[i as int].0@, found@[i as int].1@));
                let kv = found_schemas(kept@);
                assert(same == (same_path(kv[j as int].0, fv[i as int].0) && view_eq(
                    kv[j as int].1,
                    fv[i as int].1,
                )));
            }
            if same {
                seen = true;
            }
            j += 1;
        }
        if !seen {
            let keys = keys_from(&found[i].0, 0);
            let value = copy_json(&found[i].1);
            proof {
                assert(found@[i as int].0@.skip(0) =~= found@[i as int].0@);
            }
            let ghost before = kept@;
            kept.push((keys, value));
            proof {
                assert(found_schemas(kept@) =~= found_schemas(before).push(fv[i as int]));
            }
        }
        i += 1;
    }
    proof {
        assert(fv.take(found@.len() as int) =~= fv);
    }
    kept
}

/// The document at `url`, from what is known.
pub open spec fn spec_load(k: Knowledge, url: Seq<char>) -> Result<JsonView, HaltView> {
    match lookup_found(k.documents@, url) {
        None => Err(HaltView::Needs(NeedView::Document(url))),
        Some(None) => Err(HaltView::Failed(ErrorView::Unloadable(url))),
        Some(Some((_, document))) => Ok(document),
    }
}

/// The schemas that apply at `path` of the document `value` under the
/// schema at `schema_url`, each once with the full path it applies at.
pub open spec fn spec_schemas_at_path(k: Knowledge, schema_url: Seq<char>, value: JsonView, path: Seq<KeyOrIndex>) -> Result<
    Seq<FoundView>,
    HaltView,
> {
    match spec_load(k, schema_url) {
        Err(e) => Err(e),
        Ok(schema) => match spec_collect(
            k,
            schema_url,
            schema,
            value,
            Seq::empty(),
            path,
            MAX_COMPOSITION_DEPTH as nat,
            Seq::empty(),
            Seq::empty(),
        ) {
            Err(e) => Err(e),
            Ok((_, found)) => Ok(unique_found(found)),
        },
    }
}

/// Whether every entry of `found` was found at `p`.
pub open spec fn all_found_at(found: Seq<FoundView>, p: Seq<KeyOrIndex>) -> bool {
    forall|i: int| 0 <= i < found.len() ==> (#[trigger] found[i]).0 == p
}

proof fn lemma_collect_at(
    k: Knowledge,
    base: Seq<char>,
    schema: JsonView,
    value: JsonView,
    full: Seq<KeyOrIndex>,
    path: Seq<KeyOrIndex>,
    depth: nat,
    visited: Seq<Seq<char>>,
    acc: Seq<FoundView>,
)
    requires
        all_found_at(acc, full + path),
    ensures
        spec_collect(k, base, schema, value, full, path, depth, visited, acc) matches Ok((_, a)) ==> all_found_at(
            a,
            full + path,
        ),
    decreases path.len(), depth, 9nat, 0nat,
{
    if !(schema is Object) || depth == 0 {
    } else {
        let d = (depth - 1) as nat;
        let b = match spec_rebase(base, schema) {
            Some(r) => r,
            None => base,
        };
        match view_str(view_index(schema, "$ref"@)) {
            Some(r) => match url_join(b, r) {
                None => {},
                Some(url) => if !visited.contains(url) {
                    match spec_resolve(k, url) {
                        Err(_) => {},
                        Ok((target_base, target)) => lemma_collect_at(
                            k,
                            target_base,
                            spec_fold_siblings(target, schema, b),
                            value,
                            full,
                            path,
                            d,
                            visited.push(url),
                            acc,
                        ),
                    }
                },
            },
            None => match spec_compose_all_of(k, base, schema, d, visited) {
                Err(_) => {},
                Ok(c) => lemma_one_of_stage_at(
                    k,
                    b,
                    base,
                    match c {
                        Some(x) => x,
                        None => schema,
                    },
                    value,
                    full,
                    path,
                    d,
                    visited,
                    acc,
                ),
            },
        }
    }
}

proof fn lemma_collect_each_at(
    k: Knowledge,
    base: Seq<char>,
    list: Seq<JsonView>,
    value: JsonView,
    full: Seq<KeyOrIndex>,
    path: Seq<KeyOrIndex>,
    depth: nat,
    visited: Seq<Seq<char>>,
    acc: Seq<FoundView>,
)
    requires
        all_found_at(acc, full + path),
    ensures
        collect_each(k, base, list, value, full, path, depth, visited, acc) matches Ok((_, a)) ==> all_found_at(
            a,
            full + path,
        ),
    decreases path.len(), depth, 10nat, list.len(),
{
    if list.len() > 0 {
        lemma_collect_each_at(k, base, list.drop_last(), value, full, path, depth, visited, acc);
        match collect_each(k, base, list.drop_last(), value, full, path, depth, visited, acc) {
            Err(_) => {},
            Ok((_, a)) => lemma_collect_at(k, base, list.last(), value, full, path, depth, visited, a),
        }
    }
}

proof fn lemma_keyword_branches_at(
    k: Knowledge,
    base: Seq<char>,
    schema: JsonView,
    kw: Seq<char>,
    any_of: bool,
    value: JsonView,
    full: Seq<KeyOrIndex>,
    path: Seq<KeyOrIndex>,
    depth: nat,
    visited: Seq<Seq<char>>,
    evaluated: bool,
    acc: Seq<FoundView>,
)
    requires
        all_found_at(acc, full + path),
    ensures
        keyword_branches(k, base, schema, kw, any_of, value, full, path, depth, visited, evaluated, acc) matches Ok(
            (_, a),
        ) ==> all_found_at(a, full + path),
    decreases path.len(), depth, 14nat, 0nat,
{
    if let JsonView::Array(branches) = view_index(schema, kw) {
        lemma_collect_each_at(k, base, branches, value, full, path, depth, visited, acc);
    }
}

proof fn lemma_one_of_stage_at(
    k: Knowledge,
    base: Seq<char>,
    enclosing: Seq<char>,
    schema: JsonView,
    value: JsonView,
    full: Seq<KeyOrIndex>,
    path: Seq<KeyOrIndex>,
    depth: nat,
    visited: Seq<Seq<char>>,
    acc: Seq<FoundView>,
)
    requires
        all_found_at(acc, full + path),
    ensures
        one_of_stage(k, base, enclosing, schema, value, full, path, depth, visited, acc) matches Ok((_, a))
            ==> all_found_at(a, full + path),
    decreases path.len(), depth, 15nat, 0nat,
{
    lemma_keyword_branches_at(k, base, schema, "oneOf"@, false, value, full, path, depth, visited, false, acc);
    match keyword_branches(k, base, schema, "oneOf"@, false, value, full, path, depth, visited, false, acc) {
        Err(_) => {},
        Ok((e1, a1)) => {
            lemma_keyword_branches_at(k, base, schema, "anyOf"@, true, value, full, path, depth, visited, e1, a1);
            match keyword_branches(k, base, schema, "anyOf"@, true, value, full, path, depth, visited, e1, a1) {
                Err(_) => {},
                Ok((e2, a2)) => lemma_all_of_stage_at(
                    k,
                    base,
                    enclosing,
                    schema,
                    value,
                    full,
                    path,
                    depth,
                    visited,
                    e2,
                    a2,
                ),
            }
        },
    }
}

proof fn lemma_all_of_stage_at(
    k: Knowledge,
    base: Seq<char>,
    enclosing: Seq<char>,
    schema: JsonView,
    value: JsonView,
    full: Seq<KeyOrIndex>,
    path: Seq<KeyOrIndex>,
    depth: nat,
    visited: Seq<Seq<char>>,
    evaluated: bool,
    acc: Seq<FoundView>,
)
    requires
        all_found_at(acc, full + path),
    ensures
        all_of_stage(k, base, enclosing, schema, value, full, path, depth, visited, evaluated, acc) matches Ok(
            (_, a),
        ) ==> all_found_at(a, full + path),
    decreases path.len(), depth, 13nat, 0nat,
{
    match view_index(schema, "allOf"@) {
        JsonView::Array(members) => {
            lemma_collect_each_at(k, base, members, value, full, path, depth, visited, acc);
            match collect_each(k, base, members, value, full, path, depth, visited, acc) {
                Err(_) => {},
                Ok((coverage, a)) => lemma_conditional_stage_at(
                    k,
                    base,
                    enclosing,
                    schema,
                    value,
                    full,
                    path,
                    depth,
                    visited,
                    evaluated || any_set(coverage),
                    a,
                ),
            }
        },
        _ => lemma_conditional_stage_at(k, base, enclosing, schema, value, full, path, depth, visited, evaluated, acc),
    }
}

proof fn lemma_conditional_stage_at(
    k: Knowledge,
    base: Seq<char>,
    enclosing: Seq<char>,
    schema: JsonView,
    value: JsonView,
    full: Seq<KeyOrIndex>,
    path: Seq<KeyOrIndex>,
    depth: nat,
    visited: Seq<Seq<char>>,
    evaluated: bool,
    acc: Seq<FoundView>,
)
    requires
        all_found_at(acc, full + path),
    ensures
        conditional_stage(k, base, enclosing, schema, value, full, path, depth, visited, evaluated, acc) matches Ok(
            (_, a),
        ) ==> all_found_at(a, full + path),
    decreases path.len(), depth, 12nat, 0nat,
{
    let condition = if asks_condition(schema) {
        spec_condition(k, base, view_index(schema, "if"@), value)
    } else {
        Ok(None)
    };
    match condition {
        Err(_) => {},
        Ok(c) => {
            let list = spec_applicable_conditionals(schema, c, value);
            lemma_collect_each_at(k, base, list, value, full, path, depth, visited, acc);
            match collect_each(k, base, list, value, full, path, depth, visited, acc) {
                Err(_) => {},
                Ok((coverage, a)) => lemma_path_stage_at(
                    k,
                    base,
                    enclosing,
                    schema,
                    value,
                    full,
                    path,
                    depth,
                    evaluated || any_set(coverage),
                    a,
                ),
            }
        },
    }
}

proof fn lemma_path_stage_at(
    k: Knowledge,
    base: Seq<char>,
    enclosing: Seq<char>,
    schema: JsonView,
    value: JsonView,
    full: Seq<KeyOrIndex>,
    path: Seq<KeyOrIndex>,
    depth: nat,
    evaluated: bool,
    acc: Seq<FoundView>,
)
    requires
        all_found_at(acc, full + path),
    ensures
        path_stage(k, base, enclosing, schema, value, full, path, depth, evaluated, acc) matches Ok((_, a))
            ==> all_found_at(a, full + path),
    decreases path.len(), depth, 11nat, 0nat,
{
    if path.len() == 0 {
        assert(full + path =~= full);
        let a = acc.push((full, spec_absolute_refs(schema, enclosing)));
        assert forall|i: int| 0 <= i < a.len() implies (#[trigger] a[i]).0 == full + path by {
            if i < acc.len() {
                assert(a[i] == acc[i]);
            }
        }
    } else {
        let segment = path[0];
        let child_value = step_into(value, segment);
        let next = full.push(segment);
        assert(next + path.drop_first() =~= full + path);
        match segment {
            KeyOrIndex::Key(key) => {
                let (descents, ev) = spec_key_subschemas(schema, key@, evaluated);
                lemma_collect_children_at(k, base, descents, child_value, next, path.drop_first(), acc);
            },
            KeyOrIndex::Index(i) => {
                let item = spec_item_schema(schema, i as nat);
                lemma_collect_at(
                    k,
                    base,
                    item,
                    child_value,
                    next,
                    path.drop_first(),
                    MAX_COMPOSITION_DEPTH as nat,
                    Seq::empty(),
                    acc,
                );
                match spec_collect(
                    k,
                    base,
                    item,
                    child_value,
                    next,
                    path.drop_first(),
                    MAX_COMPOSITION_DEPTH as nat,
                    Seq::empty(),
                    acc,
                ) {
                    Err(_) => {},
                    Ok((_, a1)) => {
                        let holds = if view_index(schema, "contains"@) is Null {
                            Ok(None)
                        } else {
                            spec_condition(k, base, view_index(schema, "contains"@), child_value)
                        };
                        match holds {
                            Err(_) => {},
                            Ok(h) => {
                                let (descents, ev) = spec_index_subschemas(schema, i as nat, evaluated, h);
                                if descents.len() > 1 {
                                    lemma_collect_at(
                                        k,
                                        base,
                                        descents[1],
                                        child_value,
                                        next,
                                        path.drop_first(),
                                        MAX_COMPOSITION_DEPTH as nat,
                                        Seq::empty(),
                                        a1,
                                    );
                                }
                            },
                        }
                    },
                }
            },
        }
    }
}

proof fn lemma_collect_children_at(
    k: Knowledge,
    base: Seq<char>,
    list: Seq<JsonView>,
    value: JsonView,
    full: Seq<KeyOrIndex>,
    path: Seq<KeyOrIndex>,
    acc: Seq<FoundView>,
)
    requires
        all_found_at(acc, full + path),
    ensures
        collect_children(k, base, list, value, full, path, acc) matches Ok(a) ==> all_found_at(a, full + path),
    decreases path.len() + 1, 0nat, 0nat, list.len(),
{
    if list.len() > 0 {
        lemma_collect_children_at(k, base, list.drop_last(), value, full, path, acc);
        match collect_children(k, base, list.drop_last(), value, full, path, acc) {
            Err(_) => {},
            Ok(a) => lemma_collect_at(
                k,
                base,
                list.last(),
                value,
                full,
                path,
                MAX_COMPOSITION_DEPTH as nat,
                Seq::empty(),
                a,
            ),
        }
    }
}

/// Every schema `schemas_at_path` returns applies at the path asked for:
/// the path it carries is that path.
pub proof fn schemas_at_path_finds_at_the_path(
    k: Knowledge,
    schema_url: Seq<char>,
    value: JsonView,
    path: Seq<KeyOrIndex>,
)
    requires
        spec_schemas_at_path(k, schema_url, value, path) is Ok,
    ensures
        all_found_at(spec_schemas_at_path(k, schema_url, value, path)->Ok_0, path),
{
    if let Ok(schema) = spec_load(k, schema_url) {
        let empty = Seq::<KeyOrIndex>::empty();
        assert(empty + path =~= path);
        lemma_collect_at(
            k,
            schema_url,
            schema,
            value,
            empty,
            path,
            MAX_COMPOSITION_DEPTH as nat,
            Seq::empty(),
            Seq::empty(),
        );
        if let Ok((_, found)) = spec_collect(
            k,
            schema_url,
            schema,
            value,
            empty,
            path,
            MAX_COMPOSITION_DEPTH as nat,
            Seq::empty(),
            Seq::empty(),
        ) {
            unique_found_keeps_one_of_each(found);
            let kept = unique_found(found);
            assert forall|j: int| 0 <= j < kept.len() implies (#[trigger] kept[j]).0 == path by {
                assert(found.contains(kept[j]));
                let w = choose|w: int| 0 <= w < found.len() && found[w] == kept[j];
                assert(found[w].0 == path);
            }
        }
    }
}

/// The schemas that apply at `path` of the document `value` under the
/// schema at `schema_url`, each once with the full path it applies at; or
/// what is needed to go on, or why it failed.
pub fn schemas_at_path(k: &Knowledge, schema_url: &str, value: &JsonValue, path: &Vec<KeyOrIndex>) -> (r: Result<
    Vec<(Vec<KeyOrIndex>, JsonValue)>,
    Halt,
>)
    ensures
        match r {
            Ok(found) => spec_schemas_at_path(*k, schema_url@, value@, path@) == Ok::<
                Seq<FoundView>,
                HaltView,
            >(found_schemas(found@)),
            Err(h) => spec_schemas_at_path(*k, schema_url@, value@, path@) == Err::<
                Seq<FoundView>,
                HaltView,
            >(h@),
        },
{
    let schema = match find_found(&k.documents, schema_url) {
        None => return Err(Halt::Needs(Need::Document(schema_url.to_owned()))),
        Some(None) => return Err(Halt::Failed(TraversalError::Unloadable(schema_url.to_owned()))),
        Some(Some(found)) => &found.1,
    };
    let mut acc: Vec<(Vec<KeyOrIndex>, JsonValue)> = Vec::new();
    let mut visited: Vec<String> = Vec::new();
    let full: Vec<KeyOrIndex> = Vec::new();
    proof {
        assert(found_schemas(acc@) =~= Seq::<FoundView>::empty());
        assert(strs(visited@) =~= Seq::<Seq<char>>::empty());
    }
    match collect_schemas(
        k,
        schema_url,
        schema,
        value,
        &full,
        path,
        MAX_COMPOSITION_DEPTH,
        &mut visited,
        &mut acc,
    ) {
        Err(h) => Err(h),
        Ok(_) => Ok(dedup_found(acc)),
    }
}

/// A child schema found for completion: the full path it applies at, the
/// path relative to the schema it was found under, and the schema.
pub type ChildView = (Seq<PathStep>, Seq<PathStep>, JsonView);

/// A path segment as the specifications read it.
pub enum PathStep {
    Key(Seq<char>),
    Index(usize),
}

/// A segment as the specifications read it.
pub open spec fn step_view(s: KeyOrIndex) -> PathStep {
    match s {
        KeyOrIndex::Key(k) => PathStep::Key(k@),
        KeyOrIndex::Index(i) => PathStep::Index(i),
    }
}

/// A path as the specifications read it.
pub open spec fn path_view(p: Seq<KeyOrIndex>) -> Seq<PathStep> {
    p.map_values(|s: KeyOrIndex| step_view(s))
}

/// The children found so far, as the specifications read them.
pub open spec fn found_children(v: Seq<(Vec<KeyOrIndex>, Vec<KeyOrIndex>, JsonValue)>) -> Seq<ChildView> {
    v.map_values(|e: (Vec<KeyOrIndex>, Vec<KeyOrIndex>, JsonValue)| (path_view(e.0@), path_view(e.1@), e.2@))
}

/// The schemas that describe what may be written below `schema`, at most
/// `depth` keys deep, appended to `acc` with their paths. A reference is
/// followed once per chain (a reference that cannot be resolved is read as
/// a plain schema); `allOf` is composed where it can be; `oneOf`, `anyOf`,
/// the conditionals and `allOf` are traversed in place; the schema itself is
/// offered unless only its branches describe it; then each property is
/// traversed one key deeper.
pub open spec fn spec_children(
    k: Knowledge,
    base: Seq<char>,
    schema: JsonView,
    root: Seq<PathStep>,
    path: Seq<PathStep>,
    instance: JsonView,
    depth: nat,
    cdepth: nat,
    visited: Seq<Seq<char>>,
    acc: Seq<ChildView>,
) -> Result<Seq<ChildView>, HaltView>
    decreases depth, cdepth, 1nat, 0nat,
{
    if !(schema is Object) || depth == 0 || cdepth == 0 {
        Ok(acc)
    } else {
        let cd = (cdepth - 1) as nat;
        let b = match spec_rebase(base, schema) {
            Some(r) => r,
            None => base,
        };
        match spec_ref_schema_value(k, b, schema) {
            Err(e) => Err(e),
            Ok(Some((url, target_base, resolved))) => if visited.contains(url) {
                Ok(acc)
            } else {
                spec_children(k, target_base, resolved, root, path, instance, depth, cd, visited.push(url), acc)
            },
            Ok(None) => match spec_compose_all_of(k, base, schema, cd, visited) {
                Err(e) => Err(e),
                Ok(c) => children_in_place(
                    k,
                    b,
                    match c {
                        Some(x) => x,
                        None => schema,
                    },
                    root,
                    path,
                    instance,
                    depth,
                    cd,
                    visited,
                    acc,
                ),
            },
        }
    }
}

/// The items of an array member, or none.
pub open spec fn member_items(schema: JsonView, kw: Seq<char>) -> Seq<JsonView> {
    match view_index(schema, kw) {
        JsonView::Array(xs) => xs,
        _ => Seq::empty(),
    }
}

/// `spec_children` for each of `list` in turn, in place.
pub open spec fn children_each(
    k: Knowledge,
    base: Seq<char>,
    list: Seq<JsonView>,
    root: Seq<PathStep>,
    path: Seq<PathStep>,
    instance: JsonView,
    depth: nat,
    cdepth: nat,
    visited: Seq<Seq<char>>,
    acc: Seq<ChildView>,
) -> Result<Seq<ChildView>, HaltView>
    decreases depth, cdepth, 2nat, list.len(),
{
    if list.len() == 0 {
        Ok(acc)
    } else {
        match children_each(k, base, list.drop_last(), root, path, instance, depth, cdepth, visited, acc) {
            Err(e) => Err(e),
            Ok(a) => spec_children(k, base, list.last(), root, path, instance, depth, cdepth, visited, a),
        }
    }
}

/// `oneOf` and `anyOf`, then the conditionals, then `allOf`, in place; then
/// the schema itself and its properties.
pub open spec fn children_in_place(
    k: Knowledge,
    base: Seq<char>,
    schema: JsonView,
    root: Seq<PathStep>,
    path: Seq<PathStep>,
    instance: JsonView,
    depth: nat,
    cdepth: nat,
    visited: Seq<Seq<char>>,
    acc: Seq<ChildView>,
) -> Result<Seq<ChildView>, HaltView>
    decreases depth, cdepth, 3nat, 0nat,
{
    match children_each(
        k,
        base,
        member_items(schema, "oneOf"@) + member_items(schema, "anyOf"@),
        root,
        path,
        instance,
        depth,
        cdepth,
        visited,
        acc,
    ) {
        Err(e) => Err(e),
        Ok(a1) => {
            let condition = if asks_condition(schema) {
                spec_condition(k, base, view_index(schema, "if"@), instance)
            } else {
                Ok(None)
            };
            match condition {
                Err(e) => Err(e),
                Ok(c) => match children_each(
                    k,
                    base,
                    spec_applicable_conditionals(schema, c, instance) + member_items(schema, "allOf"@),
                    root,
                    path,
                    instance,
                    depth,
                    cdepth,
                    visited,
                    a1,
                ) {
                    Err(e) => Err(e),
                    Ok(a2) => {
                        let a3 = if spec_offers_itself(schema) {
                            a2.push((root + path, path, schema))
                        } else {
                            a2
                        };
                        match view_index(schema, "properties"@) {
                            JsonView::Object(props) => property_children(
                                k,
                                base,
                                props,
                                root,
                                path,
                                instance,
                                depth,
                                a3,
                            ),
                            _ => Ok(a3),
                        }
                    },
                }
            }
        },
    }
}

/// Each property traversed one key deeper, with a fresh composition budget
/// and chain.
pub open spec fn property_children(
    k: Knowledge,
    base: Seq<char>,
    props: Seq<(Seq<char>, JsonView)>,
    root: Seq<PathStep>,
    path: Seq<PathStep>,
    instance: JsonView,
    depth: nat,
    acc: Seq<ChildView>,
) -> Result<Seq<ChildView>, HaltView>
    decreases depth, 0nat, 0nat, props.len(),
{
    if props.len() == 0 || depth == 0 {
        Ok(acc)
    } else {
        match property_children(k, base, props.drop_last(), root, path, instance, depth, acc) {
            Err(e) => Err(e),
            Ok(a) => {
                let name = props.last().0;
                spec_children(
                    k,
                    base,
                    props.last().1,
                    root,
                    path.push(PathStep::Key(name)),
                    view_index(instance, name),
                    (depth - 1) as nat,
                    MAX_COMPOSITION_DEPTH as nat,
                    Seq::empty(),
                    a,
                )
            },
        }
    }
}

/// Borrows the items of `schema[kw]` when it is an array.
fn member_refs<'a>(schema: &'a JsonValue, kw: &str) -> (r: Vec<&'a JsonValue>)
    ensures
        refs_view(r@) == member_items(schema@, kw@),
{
    match member(schema, kw) {
        Some(JsonValue::Array(items)) => refs_of(items),
        _ => {
            let out: Vec<&'a JsonValue> = Vec::new();
            assert(refs_view(out@) =~= Seq::<JsonView>::empty());
            out
        },
    }
}

/// `a` followed by `b`.
fn concat_refs<'a>(a: Vec<&'a JsonValue>, b: Vec<&'a JsonValue>) -> (r: Vec<&'a JsonValue>)
    ensures
        refs_view(r@) == refs_view(a@) + refs_view(b@),
{
    let mut out = a;
    let ghost start = out@;
    let mut i: usize = 0;
    while i < b.len()
        invariant
            0 <= i <= b@.len(),
            out@ == start + b@.take(i as int),
        decreases b@.len() - i,
    {
        out.push(b[i]);
        i += 1;
        assert(out@ =~= start + b@.take(i as int));
    }
    assert(b@.take(b@.len() as int) =~= b@);
    assert(refs_view(out@) =~= refs_view(start) + refs_view(b@));
    out
}

/// `a` followed by `b`.
fn concat_keys(a: &Vec<KeyOrIndex>, b: &Vec<KeyOrIndex>) -> (r: Vec<KeyOrIndex>)
    ensures
        r@ == a@ + b@,
{
    let mut out = keys_from(a, 0);
    assert(a@.skip(0) =~= a@);
    let mut i: usize = 0;
    while i < b.len()
        invariant
            0 <= i <= b@.len(),
            out@ == a@ + b@.take(i as int),
        decreases b@.len() - i,
    {
        let step = match &b[i] {
            KeyOrIndex::Key(k) => KeyOrIndex::Key(k.clone()),
            KeyOrIndex::Index(n) => KeyOrIndex::Index(*n),
        };
        assert(step == b@[i as int]);
        out.push(step);
        i += 1;
        assert(out@ =~= a@ + b@.take(i as int));
    }
    assert(b@.take(b@.len() as int) =~= b@);
    out
}

proof fn lemma_children_each_error(
    k: Knowledge,
    base: Seq<char>,
    list: Seq<JsonView>,
    root: Seq<PathStep>,
    path: Seq<PathStep>,
    instance: JsonView,
    depth: nat,
    cdepth: nat,
    visited: Seq<Seq<char>>,
    acc: Seq<ChildView>,
    j: int,
)
    requires
        0 <= j <= list.len(),
        children_each(k, base, list.take(j), root, path, instance, depth, cdepth, visited, acc) is Err,
    ensures
        children_each(k, base, list, root, path, instance, depth, cdepth, visited, acc) == children_each(
            k,
            base,
            list.take(j),
            root,
            path,
            instance,
            depth,
            cdepth,
            visited,
            acc,
        ),
    decreases list.len() - j,
{
    if j < list.len() {
        assert(list.take(j + 1).drop_last() =~= list.take(j));
        lemma_children_each_error(k, base, list, root, path, instance, depth, cdepth, visited, acc, j + 1);
    } else {
        assert(list.take(j) =~= list);
    }
}

proof fn lemma_property_children_error(
    k: Knowledge,
    base: Seq<char>,
    props: Seq<(Seq<char>, JsonView)>,
    root: Seq<PathStep>,
    path: Seq<PathStep>,
    instance: JsonView,
    depth: nat,
    acc: Seq<ChildView>,
    j: int,
)
    requires
        0 <= j <= props.len(),
        property_children(k, base, props.take(j), root, path, instance, depth, acc) is Err,
    ensures
        property_children(k, base, props, root, path, instance, depth, acc) == property_children(
            k,
            base,
            props.take(j),
            root,
            path,
            instance,
            depth,
            acc,
        ),
    decreases props.len() - j,
{
    if j < props.len() {
        assert(props.take(j + 1).drop_last() =~= props.take(j));
        lemma_property_children_error(k, base, props, root, path, instance, depth, acc, j + 1);
    } else {
        assert(props.take(j) =~= props);
    }
}

/// Traverses each of `list` in place, for children.
fn children_each_exec(
    k: &Knowledge,
    base: &str,
    list: &Vec<&JsonValue>,
    root: &Vec<KeyOrIndex>,
    path: &Vec<KeyOrIndex>,
    instance: &JsonValue,
    depth: usize,
    cdepth: usize,
    visited: &mut Vec<String>,
    acc: &mut Vec<(Vec<KeyOrIndex>, Vec<KeyOrIndex>, JsonValue)>,
) -> (r: Result<(), Halt>)
    ensures
        match r {
            Ok(_) => children_each(
                *k,
                base@,
                refs_view(list@),
                path_view(root@),
                path_view(path@),
                instance@,
                depth as nat,
                cdepth as nat,
                strs(old(visited)@),
                found_children(old(acc)@),
            ) == Ok::<Seq<ChildView>, HaltView>(found_children(final(acc)@)),
            Err(h) => children_each(
                *k,
                base@,
                refs_view(list@),
                path_view(root@),
                path_view(path@),
                instance@,
                depth as nat,
                cdepth as nat,
                strs(old(visited)@),
                found_children(old(acc)@),
            ) == Err::<Seq<ChildView>, HaltView>(h@),
        },
        r is Ok ==> final(visited)@ == old(visited)@,
    decreases depth, cdepth, 2nat, list@.len(),
{
    let ghost lv = refs_view(list@);
    let ghost vis = strs(visited@);
    let ghost acc0 = found_children(acc@);
    let mut i: usize = 0;
    assert(lv.take(0) =~= Seq::<JsonView>::empty());
    while i < list.len()
        invariant
            0 <= i <= list@.len(),
            lv == refs_view(list@),
            visited@ == old(visited)@,
            vis == strs(old(visited)@),
            acc0 == found_children(old(acc)@),
            children_each(
                *k,
                base@,
                lv.take(i as int),
                path_view(root@),
                path_view(path@),
                instance@,
                depth as nat,
                cdepth as nat,
                vis,
                acc0,
            ) == Ok::<Seq<ChildView>, HaltView>(found_children(acc@)),
        decreases list@.len() - i,
    {
        proof {
            assert(lv.take(i + 1).drop_last() =~= lv.take(i as int));
            assert(lv.take(i + 1).last() == list@[i as int]@);
        }
        match children_exec(k, base, list[i], root, path, instance, depth, cdepth, visited, acc) {
            Err(h) => {
                proof {
                    lemma_children_each_error(
                        *k,
                        base@,
                        lv,
                        path_view(root@),
                        path_view(path@),
                        instance@,
                        depth as nat,
                        cdepth as nat,
                        vis,
                        acc0,
                        i + 1,
                    );
                }
                return Err(h);
            },
            Ok(_) => {},
        }
        i += 1;
    }
    proof {
        assert(lv.take(list@.len() as int) =~= lv);
    }
    Ok(())
}

/// Each property traversed one key deeper.
fn property_children_exec(
    k: &Knowledge,
    base: &str,
    props: &Vec<(String, JsonValue)>,
    root: &Vec<KeyOrIndex>,
    path: &Vec<KeyOrIndex>,
    instance: &JsonValue,
    depth: usize,
    acc: &mut Vec<(Vec<KeyOrIndex>, Vec<KeyOrIndex>, JsonValue)>,
) -> (r: Result<(), Halt>)
    ensures
        match r {
            Ok(_) => property_children(
                *k,
                base@,
                json_entries_view(props@),
                path_view(root@),
                path_view(path@),
                instance@,
                depth as nat,
                found_children(old(acc)@),
            ) == Ok::<Seq<ChildView>, HaltView>(found_children(final(acc)@)),
            Err(h) => property_children(
                *k,
                base@,
                json_entries_view(props@),
                path_view(root@),
                path_view(path@),
                instance@,
                depth as nat,
                found_children(old(acc)@),
            ) == Err::<Seq<ChildView>, HaltView>(h@),
        },
    decreases depth, 0nat, 0nat, props@.len(),
{
    let ghost pv = json_entries_view(props@);
    let ghost acc0 = found_children(acc@);
    proof {
        lemma_entries_view(props@);
    }
    if depth == 0 {
        return Ok(());
    }
    let mut i: usize = 0;
    assert(pv.take(0) =~= Seq::<(Seq<char>, JsonView)>::empty());
    while i < props.len()
        invariant
            0 <= i <= props@.len(),
            depth > 0,
            pv == json_entries_view(props@),
            pv.len() == props@.len(),
            forall|h: int| 0 <= h < props@.len() ==> #[trigger] pv[h] == (props@[h].0@, props@[h].1@),
            acc0 == found_children(old(acc)@),
            property_children(
                *k,
                base@,
                pv.take(i as int),
                path_view(root@),
                path_view(path@),
                instance@,
                depth as nat,
                acc0,
            ) == Ok::<Seq<ChildView>, HaltView>(found_children(acc@)),
        decreases props@.len() - i,
    {
        proof {
            assert(pv.take(i + 1).drop_last() =~= pv.take(i as int));
            assert(pv.take(i + 1).last() == pv[i as int]);
        }
        let segment = KeyOrIndex::Key(props[i].0.clone());
        let child_path = keys_with(path, &segment);
        proof {
            assert(path_view(child_path@) =~= path_view(path@).push(PathStep::Key(pv[i as int].0)));
        }
        let child_instance: &JsonValue = match member(instance, props[i].0.as_str()) {
            Some(m) => m,
            None => &JsonValue::Null,
        };
        let mut fresh: Vec<String> = Vec::new();
        proof {
            assert(strs(fresh@) =~= Seq::<Seq<char>>::empty());
        }
        match children_exec(
            k,
            base,
            &props[i].1,
            root,
            &child_path,
            child_instance,
            depth - 1,
            MAX_COMPOSITION_DEPTH,
            &mut fresh,
            acc,
        ) {
            Err(h) => {
                proof {
                    lemma_property_children_error(
                        *k,
                        base@,
                        pv,
                        path_view(root@),
                        path_view(path@),
                        instance@,
                        depth as nat,
                        acc0,
                        i + 1,
                    );
                }
                return Err(h);
            },
            Ok(_) => {},
        }
        i += 1;
    }
    proof {
        assert(pv.take(props@.len() as int) =~= pv);
    }
    Ok(())
}

/// `oneOf` and `anyOf`, the conditionals and `allOf` in place, then the
/// schema itself and its properties.
fn children_in_place_exec(
    k: &Knowledge,
    base: &str,
    schema: &JsonValue,
    root: &Vec<KeyOrIndex>,
    path: &Vec<KeyOrIndex>,
    instance: &JsonValue,
    depth: usize,
    cdepth: usize,
    visited: &mut Vec<String>,
    acc: &mut Vec<(Vec<KeyOrIndex>, Vec<KeyOrIndex>, JsonValue)>,
) -> (r: Result<(), Halt>)
    ensures
        match r {
            Ok(_) => children_in_place(
                *k,
                base@,
                schema@,
                path_view(root@),
                path_view(path@),
                instance@,
                depth as nat,
                cdepth as nat,
                strs(old(visited)@),
                found_children(old(acc)@),
            ) == Ok::<Seq<ChildView>, HaltView>(found_children(final(acc)@)),
            Err(h) => children_in_place(
                *k,
                base@,
                schema@,
                path_view(root@),
                path_view(path@),
                instance@,
                depth as nat,
                cdepth as nat,
                strs(old(visited)@),
                found_children(old(acc)@),
            ) == Err::<Seq<ChildView>, HaltView>(h@),
        },
        r is Ok ==> final(visited)@ == old(visited)@,
    decreases depth, cdepth, 3nat, 0nat,
{
    let branches = concat_refs(member_refs(schema, "oneOf"), member_refs(schema, "anyOf"));
    match children_each_exec(k, base, &branches, root, path, instance, depth, cdepth, visited, acc) {
        Err(h) => return Err(h),
        Ok(_) => {},
    }
    let condition = if needs_condition(schema) {
        let if_schema: &JsonValue = match member(schema, "if") {
            Some(c) => c,
            None => &JsonValue::Null,
        };
        match condition_holds(k, base, if_schema, instance) {
            Ok(c) => c,
            Err(h) => return Err(h),
        }
    } else {
        None
    };
    let conditionals = applicable_conditionals(schema, condition, instance);
    proof {
        assert(refs_view(conditionals@) =~= spec_applicable_conditionals(schema@, condition, instance@));
    }
    let rest = concat_refs(conditionals, member_refs(schema, "allOf"));
    match children_each_exec(k, base, &rest, root, path, instance, depth, cdepth, visited, acc) {
        Err(h) => return Err(h),
        Ok(_) => {},
    }
    if offers_itself(schema) {
        let full = concat_keys(root, path);
        let relative = keys_from(path, 0);
        proof {
            assert(path@.skip(0) =~= path@);
            assert(path_view(full@) =~= path_view(root@) + path_view(path@));
        }
        let found = copy_json(schema);
        let ghost before = acc@;
        acc.push((full, relative, found));
        proof {
            assert(found_children(acc@) =~= found_children(before).push(
                (path_view(root@) + path_view(path@), path_view(path@), schema@),
            ));
        }
    }
    match member(schema, "properties") {
        Some(JsonValue::Object(props)) => property_children_exec(k, base, props, root, path, instance, depth, acc),
        _ => Ok(()),
    }
}

/// Collects, below `schema`, the schemas that describe what may be written
/// there, at most `depth` keys deep, each with its full and relative path;
/// or what is needed to go on.
pub fn children_exec(
    k: &Knowledge,
    base: &str,
    schema: &JsonValue,
    root: &Vec<KeyOrIndex>,
    path: &Vec<KeyOrIndex>,
    instance: &JsonValue,
    depth: usize,
    cdepth: usize,
    visited: &mut Vec<String>,
    acc: &mut Vec<(Vec<KeyOrIndex>, Vec<KeyOrIndex>, JsonValue)>,
) -> (r: Result<(), Halt>)
    ensures
        match r {
            Ok(_) => spec_children(
                *k,
                base@,
                schema@,
                path_view(root@),
                path_view(path@),
                instance@,
                depth as nat,
                cdepth as nat,
                strs(old(visited)@),
                found_children(old(acc)@),
            ) == Ok::<Seq<ChildView>, HaltView>(found_children(final(acc)@)),
            Err(h) => spec_children(
                *k,
                base@,
                schema@,
                path_view(root@),
                path_view(path@),
                instance@,
                depth as nat,
                cdepth as nat,
                strs(old(visited)@),
                found_children(old(acc)@),
            ) == Err::<Seq<ChildView>, HaltView>(h@),
        },
        r is Ok ==> final(visited)@ == old(visited)@,
    decreases depth, cdepth, 1nat, 0nat,
{
    let is_object = match schema {
        JsonValue::Object(_) => true,
        _ => false,
    };
    if !is_object || depth == 0 || cdepth == 0 {
        return Ok(());
    }
    let cd = cdepth - 1;
    let rebased = rebase(base, schema);
    let b: &str = match &rebased {
        Some(x) => x.as_str(),
        None => base,
    };
    match ref_schema_value(k, b, schema) {
        Err(h) => Err(h),
        Ok(Some((url, target_base, resolved))) => {
            if contains_url(visited, url.as_str()) {
                return Ok(());
            }
            let ghost before = visited@;
            visited.push(url);
            proof {
                lemma_strs_push(before, visited@[before.len() as int]);
                assert(visited@ =~= before.push(visited@[before.len() as int]));
            }
            match children_exec(k, target_base.as_str(), &resolved, root, path, instance, depth, cd, visited, acc) {
                Ok(_) => {
                    let _ = visited.pop();
                    proof {
                        assert(visited@ =~= before);
                    }
                    Ok(())
                },
                Err(h) => Err(h),
            }
        },
        Ok(None) => {
            let composed = match compose_all_of(k, base, schema, cd, visited) {
                Ok(c) => c,
                Err(h) => return Err(h),
            };
            let s: &JsonValue = match &composed {
                Some(x) => x,
                None => schema,
            };
            children_in_place_exec(k, b, s, root, path, instance, depth, cd, visited, acc)
        },
    }
}

proof fn lemma_same_path_view(a: Seq<KeyOrIndex>, b: Seq<KeyOrIndex>)
    ensures
        same_path(a, b) == (path_view(a) == path_view(b)),
{
    if same_path(a, b) {
        assert forall|i: int| 0 <= i < a.len() implies path_view(a)[i] == path_view(b)[i] by {
            assert(same_segment(a[i], b[i]));
        }
        assert(path_view(a) =~= path_view(b));
    }
    if path_view(a) == path_view(b) {
        assert(a.len() == path_view(a).len());
        assert forall|i: int| 0 <= i < a.len() implies #[trigger] same_segment(a[i], b[i]) by {
            assert(path_view(a)[i] == path_view(b)[i]);
        }
    }
}

/// Whether `kept` already holds `x`: the same paths and an equal schema.
pub open spec fn holds_child(kept: Seq<ChildView>, x: ChildView) -> bool {
    exists|j: int| 0 <= j < kept.len() && (#[trigger] kept[j]).0 == x.0 && kept[j].1 == x.1 && view_eq(kept[j].2, x.2)
}

/// `children` without the entries an earlier kept one equals.
pub open spec fn unique_children(children: Seq<ChildView>) -> Seq<ChildView>
    decreases children.len(),
{
    if children.len() == 0 {
        Seq::empty()
    } else {
        let kept = unique_children(children.drop_last());
        if holds_child(kept, children.last()) {
            kept
        } else {
            kept.push(children.last())
        }
    }
}

/// No two entries of `u` have the same paths and equal schemas.
pub open spec fn children_distinct(u: Seq<ChildView>) -> bool {
    forall|i: int, j: int|
        #![trigger u[i], u[j]]
        0 <= i < j < u.len() ==> !(u[i].0 == u[j].0 && u[i].1 == u[j].1 && view_eq(u[i].2, u[j].2))
}

/// Dropping repeated children keeps one of each: what is kept has no two
/// equal entries, every entry has an equal one kept, and nothing else is kept.
pub proof fn unique_children_keeps_one_of_each(children: Seq<ChildView>)
    ensures
        children_distinct(unique_children(children)),
        forall|i: int|
            0 <= i < children.len() ==> holds_child(unique_children(children), #[trigger] children[i]),
        forall|j: int|
            0 <= j < unique_children(children).len() ==> children.contains(
                #[trigger] unique_children(children)[j],
            ),
    decreases children.len(),
{
    if children.len() > 0 {
        let prev = children.drop_last();
        let x = children.last();
        unique_children_keeps_one_of_each(prev);
        let kept = unique_children(prev);
        let r = unique_children(children);
        assert forall|j: int| 0 <= j < kept.len() implies children.contains(#[trigger] kept[j]) by {
            assert(prev.contains(kept[j]));
            let w = choose|w: int| 0 <= w < prev.len() && prev[w] == kept[j];
            assert(children[w] == prev[w]);
        }
        if holds_child(kept, x) {
            assert(r == kept);
            assert forall|i: int| 0 <= i < children.len() implies holds_child(r, #[trigger] children[i]) by {
                if i < children.len() - 1 {
                    assert(children[i] == prev[i]);
                }
            }
        } else {
            assert(r == kept.push(x));
            assert forall|i: int, j: int| #![trigger r[i], r[j]] 0 <= i < j < r.len() implies !(r[i].0
                == r[j].0 && r[i].1 == r[j].1 && view_eq(r[i].2, r[j].2)) by {
                if j < kept.len() {
                    assert(r[i] == kept[i] && r[j] == kept[j]);
                } else {
                    assert(r[i] == kept[i] && r[j] == x);
                }
            }
            assert forall|i: int| 0 <= i < children.len() implies holds_child(r, #[trigger] children[i]) by {
                if i < children.len() - 1 {
                    assert(children[i] == prev[i]);
                    let w = choose|w: int| 0 <= w < kept.len() && (#[trigger] kept[w]).0 == prev[i].0
                        && kept[w].1 == prev[i].1 && view_eq(kept[w].2, prev[i].2);
                    assert(r[w] == kept[w]);
                } else {
                    lemma_view_eq_reflexive(x.2);
                    assert(r[kept.len() as int] == x);
                }
            }
            assert forall|j: int| 0 <= j < r.len() implies children.contains(#[trigger] r[j]) by {
                if j < kept.len() {
                    assert(r[j] == kept[j]);
                } else {
                    assert(children[children.len() - 1] == x);
                }
            }
        }
    }
}

/// Keeps the first of each group of equal children, paths and schema.
pub fn dedup_children(children: Vec<(Vec<KeyOrIndex>, Vec<KeyOrIndex>, JsonValue)>) -> (r: Vec<
    (Vec<KeyOrIndex>, Vec<KeyOrIndex>, JsonValue),
>)
    ensures
        found_children(r@) == unique_children(found_children(children@)),
{
    let ghost cv = found_children(children@);
    let mut kept: Vec<(Vec<KeyOrIndex>, Vec<KeyOrIndex>, JsonValue)> = Vec::new();
    let mut i: usize = 0;
    assert(cv.take(0) =~= Seq::<ChildView>::empty());
    assert(found_children(kept@) =~= Seq::<ChildView>::empty());
    while i < children.len()
        invariant
            0 <= i <= children@.len(),
            cv == found_children(children@),
            found_children(kept@) == unique_children(cv.take(i as int)),
        decreases children@.len() - i,
    {
        proof {
            assert(cv.take(i + 1).drop_last() =~= cv.take(i as int));
            assert(cv.take(i + 1).last() == cv[i as int]);
        }
        let mut seen = false;
        let mut j: usize = 0;
        while j < kept.len()
            invariant
                0 <= j <= kept@.len(),
                0 <= i < children@.len(),
                cv == found_children(children@),
                seen == exists|h: int| 0 <= h < j && (#[trigger] found_children(kept@)[h]).0 == cv[i as int].0
                    && found_children(kept@)[h].1 == cv[i as int].1 && view_eq(
                    found_children(kept@)[h].2,
                    cv[i as int].2,
                ),
            decreases kept@.len() - j,
        {
            let same = paths_equal(&kept[j].0, &children[i].0) && paths_equal(&kept[j].1, &children[i].1)
                && json_equals(&kept[j].2, &children[i].2);
            proof {
                lemma_same_path_view(kept@[j as int].0@, children@[i as int].0@);
                lemma_same_path_view(kept@[j as int].1@, children@[i as int].1@);
                lemma_json_eq_view(kept@[j as int].2, children@[i as int].2);
                let kv = found_children(kept@);
                assert(kv[j as int] == (
                    path_view(kept@[j as int].0@),
                    path_view(kept@[j as int].1@),
                    kept@[j as int].2@,
                ));
                assert(cv[i as int] == (
                    path_view(children@[i as int].0@),
                    path_view(children@[i as int].1@),
                    children@[i as int].2@,
                ));
                assert(same == (kv[j as int].0 == cv[i as int].0 && kv[j as int].1 == cv[i as int].1
                    && view_eq(kv[j as int].2, cv[i as int].2)));
            }
            if same {
                seen = true;
            }
            j += 1;
        }
        if !seen {
            let full = keys_from(&children[i].0, 0);
            let relative = keys_from(&children[i].1, 0);
            let value = copy_json(&children[i].2);
            proof {
                assert(children@[i as int].0@.skip(0) =~= children@[i as int].0@);
                assert(children@[i as int].1@.skip(0) =~= children@[i as int].1@);
            }
            let ghost before = kept@;
            kept.push((full, relative, value));
            proof {
                assert(found_children(kept@) =~= found_children(before).push(cv[i as int]));
            }
        }
        i += 1;
    }
    proof {
        assert(cv.take(children@.len() as int) =~= cv);
    }
    kept
}

/// The children of each found schema, in order: what may be written below
/// it, at most `max_depth` keys deep, for the part of the document it
/// applies to.
pub open spec fn children_of_found(
    k: Knowledge,
    schema_url: Seq<char>,
    found: Seq<FoundView>,
    value: JsonView,
    max_depth: nat,
) -> Result<Seq<ChildView>, HaltView>
    decreases found.len(),
{
    if found.len() == 0 {
        Ok(Seq::empty())
    } else {
        match children_of_found(k, schema_url, found.drop_last(), value, max_depth) {
            Err(e) => Err(e),
            Ok(a) => spec_children(
                k,
                schema_url,
                found.last().1,
                path_view(found.last().0),
                Seq::empty(),
                spec_instance_at(value, found.last().0),
                max_depth,
                MAX_COMPOSITION_DEPTH as nat,
                Seq::empty(),
                a,
            ),
        }
    }
}

/// The schemas that describe what may be written at `path` of the document
/// `value` under the schema at `schema_url`, at most `max_depth` keys deep,
/// each once with its full path and its path relative to `path`.
pub open spec fn spec_possible_schemas_from(
    k: Knowledge,
    schema_url: Seq<char>,
    value: JsonView,
    path: Seq<KeyOrIndex>,
    max_depth: nat,
) -> Result<Seq<ChildView>, HaltView> {
    match spec_schemas_at_path(k, schema_url, value, path) {
        Err(e) => Err(e),
        Ok(found) => match children_of_found(k, schema_url, found, value, max_depth) {
            Err(e) => Err(e),
            Ok(children) => Ok(unique_children(children)),
        },
    }
}

/// Whether every entry of `children` has the full path `root` followed by
/// its relative path, and a relative path shorter than `limit`.
pub open spec fn children_within(children: Seq<ChildView>, root: Seq<PathStep>, limit: nat) -> bool {
    forall|i: int|
        0 <= i < children.len() ==> (#[trigger] children[i]).0 == root + children[i].1 && children[i].1.len() < limit
}

proof fn lemma_children_within(
    k: Knowledge,
    base: Seq<char>,
    schema: JsonView,
    root: Seq<PathStep>,
    path: Seq<PathStep>,
    instance: JsonView,
    depth: nat,
    cdepth: nat,
    visited: Seq<Seq<char>>,
    acc: Seq<ChildView>,
    limit: nat,
)
    requires
        children_within(acc, root, limit),
        path.len() + depth == limit,
    ensures
        spec_children(k, base, schema, root, path, instance, depth, cdepth, visited, acc) matches Ok(a)
            ==> children_within(a, root, limit),
    decreases depth, cdepth, 1nat, 0nat,
{
    if !(schema is Object) || depth == 0 || cdepth == 0 {
    } else {
        let cd = (cdepth - 1) as nat;
        let b = match spec_rebase(base, schema) {
            Some(r) => r,
            None => base,
        };
        match spec_ref_schema_value(k, b, schema) {
            Err(_) => {},
            Ok(Some((url, target_base, resolved))) => if !visited.contains(url) {
                lemma_children_within(k, target_base, resolved, root, path, instance, depth, cd, visited.push(url), acc, limit);
            },
            Ok(None) => match spec_compose_all_of(k, base, schema, cd, visited) {
                Err(_) => {},
                Ok(c) => lemma_children_in_place_within(
                    k,
                    b,
                    match c {
                        Some(x) => x,
                        None => schema,
                    },
                    root,
                    path,
                    instance,
                    depth,
                    cd,
                    visited,
                    acc,
                    limit,
                ),
            },
        }
    }
}

proof fn lemma_children_each_within(
    k: Knowledge,
    base: Seq<char>,
    list: Seq<JsonView>,
    root: Seq<PathStep>,
    path: Seq<PathStep>,
    instance: JsonView,
    depth: nat,
    cdepth: nat,
    visited: Seq<Seq<char>>,
    acc: Seq<ChildView>,
    limit: nat,
)
    requires
        children_within(acc, root, limit),
        path.len() + depth == limit,
    ensures
        children_each(k, base, list, root, path, instance, depth, cdepth, visited, acc) matches Ok(a)
            ==> children_within(a, root, limit),
    decreases depth, cdepth, 2nat, list.len(),
{
    if list.len() > 0 {
        lemma_children_each_within(k, base, list.drop_last(), root, path, instance, depth, cdepth, visited, acc, limit);
        match children_each(k, base, list.drop_last(), root, path, instance, depth, cdepth, visited, acc) {
            Err(_) => {},
            Ok(a) => lemma_children_within(k, base, list.last(), root, path, instance, depth, cdepth, visited, a, limit),
        }
    }
}

proof fn lemma_children_in_place_within(
    k: Knowledge,
    base: Seq<char>,
    schema: JsonView,
    root: Seq<PathStep>,
    path: Seq<PathStep>,
    instance: JsonView,
    depth: nat,
    cdepth: nat,
    visited: Seq<Seq<char>>,
    acc: Seq<ChildView>,
    limit: nat,
)
    requires
        children_within(acc, root, limit),
        path.len() + depth == limit,
        depth > 0,
    ensures
        children_in_place(k, base, schema, root, path, instance, depth, cdepth, visited, acc) matches Ok(a)
            ==> children_within(a, root, limit),
    decreases depth, cdepth, 3nat, 0nat,
{
    let first = member_items(schema, "oneOf"@) + member_items(schema, "anyOf"@);
    lemma_children_each_within(k, base, first, root, path, instance, depth, cdepth, visited, acc, limit);
    match children_each(k, base, first, root, path, instance, depth, cdepth, visited, acc) {
        Err(_) => {},
        Ok(a1) => {
            let condition = if asks_condition(schema) {
                spec_condition(k, base, view_index(schema, "if"@), instance)
            } else {
                Ok(None)
            };
            match condition {
                Err(_) => {},
                Ok(c) => {
                    let second = spec_applicable_conditionals(schema, c, instance) + member_items(schema, "allOf"@);
                    lemma_children_each_within(k, base, second, root, path, instance, depth, cdepth, visited, a1, limit);
                    match children_each(k, base, second, root, path, instance, depth, cdepth, visited, a1) {
                        Err(_) => {},
                        Ok(a2) => {
                            let a3 = if spec_offers_itself(schema) {
                                a2.push((root + path, path, schema))
                            } else {
                                a2
                            };
                            assert forall|i: int| 0 <= i < a3.len() implies (#[trigger] a3[i]).0 == root + a3[i].1
                                && a3[i].1.len() < limit by {
                                if i < a2.len() {
                                    assert(a3[i] == a2[i]);
                                }
                            }
                            if let JsonView::Object(props) = view_index(schema, "properties"@) {
                                lemma_property_children_within(k, base, props, root, path, instance, depth, a3, limit);
                            }
                        },
                    }
                },
            }
        },
    }
}

proof fn lemma_property_children_within(
    k: Knowledge,
    base: Seq<char>,
    props: Seq<(Seq<char>, JsonView)>,
    root: Seq<PathStep>,
    path: Seq<PathStep>,
    instance: JsonView,
    depth: nat,
    acc: Seq<ChildView>,
    limit: nat,
)
    requires
        children_within(acc, root, limit),
        path.len() + depth == limit,
    ensures
        property_children(k, base, props, root, path, instance, depth, acc) matches Ok(a) ==> children_within(
            a,
            root,
            limit,
        ),
    decreases depth, 0nat, 0nat, props.len(),
{
    if props.len() == 0 || depth == 0 {
    } else {
        lemma_property_children_within(k, base, props.drop_last(), root, path, instance, depth, acc, limit);
        match property_children(k, base, props.drop_last(), root, path, instance, depth, acc) {
            Err(_) => {},
            Ok(a) => {
                let name = props.last().0;
                lemma_children_within(
                    k,
                    base,
                    props.last().1,
                    root,
                    path.push(PathStep::Key(name)),
                    view_index(instance, name),
                    (depth - 1) as nat,
                    MAX_COMPOSITION_DEPTH as nat,
                    Seq::empty(),
                    a,
                    limit,
                );
            },
        }
    }
}

proof fn lemma_children_of_found_within(
    k: Knowledge,
    schema_url: Seq<char>,
    found: Seq<FoundView>,
    value: JsonView,
    max_depth: nat,
    path: Seq<KeyOrIndex>,
)
    requires
        all_found_at(found, path),
    ensures
        children_of_found(k, schema_url, found, value, max_depth) matches Ok(a) ==> children_within(
            a,
            path_view(path),
            max_depth,
        ),
    decreases found.len(),
{
    if found.len() > 0 {
        assert forall|i: int| 0 <= i < found.drop_last().len() implies (#[trigger] found.drop_last()[i]).0 == path by {
            assert(found.drop_last()[i] == found[i]);
        }
        lemma_children_of_found_within(k, schema_url, found.drop_last(), value, max_depth, path);
        match children_of_found(k, schema_url, found.drop_last(), value, max_depth) {
            Err(_) => {},
            Ok(a) => {
                assert(found[found.len() - 1].0 == path);
                lemma_children_within(
                    k,
                    schema_url,
                    found.last().1,
                    path_view(path),
                    Seq::empty(),
                    spec_instance_at(value, found.last().0),
                    max_depth,
                    MAX_COMPOSITION_DEPTH as nat,
                    Seq::empty(),
                    a,
                    max_depth,
                );
                assert(path_view(path) + Seq::<PathStep>::empty() =~= path_view(path));
            },
        }
    }
}

/// Each schema `possible_schemas_from` returns has as its full path the
/// path asked for followed by its relative path, and a relative path shorter
/// than the depth asked for.
pub proof fn possible_schemas_from_paths_extend_the_start(
    k: Knowledge,
    schema_url: Seq<char>,
    value: JsonView,
    path: Seq<KeyOrIndex>,
    max_depth: nat,
)
    requires
        spec_possible_schemas_from(k, schema_url, value, path, max_depth) is Ok,
    ensures
        children_within(spec_possible_schemas_from(k, schema_url, value, path, max_depth)->Ok_0, path_view(path), max_depth),
{
    if let Ok(found) = spec_schemas_at_path(k, schema_url, value, path) {
        schemas_at_path_finds_at_the_path(k, schema_url, value, path);
        lemma_children_of_found_within(k, schema_url, found, value, max_depth, path);
        if let Ok(children) = children_of_found(k, schema_url, found, value, max_depth) {
            unique_children_keeps_one_of_each(children);
            let kept = unique_children(children);
            assert forall|j: int| 0 <= j < kept.len() implies (#[trigger] kept[j]).0 == path_view(path) + kept[j].1
                && kept[j].1.len() < max_depth by {
                assert(children.contains(kept[j]));
                let w = choose|w: int| 0 <= w < children.len() && children[w] == kept[j];
                assert(children[w].0 == path_view(path) + children[w].1);
            }
        }
    }
}

/// `possible_schemas_from` lists each child schema once: no two of the
/// entries it returns have the same paths and equal schemas.
pub proof fn possible_schemas_from_lists_each_once(
    k: Knowledge,
    schema_url: Seq<char>,
    value: JsonView,
    path: Seq<KeyOrIndex>,
    max_depth: nat,
)
    requires
        spec_possible_schemas_from(k, schema_url, value, path, max_depth) is Ok,
    ensures
        children_distinct(spec_possible_schemas_from(k, schema_url, value, path, max_depth)->Ok_0),
{
    if let Ok(found) = spec_schemas_at_path(k, schema_url, value, path) {
        if let Ok(children) = children_of_found(k, schema_url, found, value, max_depth) {
            unique_children_keeps_one_of_each(children);
        }
    }
}

proof fn lemma_children_of_found_error(
    k: Knowledge,
    schema_url: Seq<char>,
    found: Seq<FoundView>,
    value: JsonView,
    max_depth: nat,
    j: int,
)
    requires
        0 <= j <= found.len(),
        children_of_found(k, schema_url, found.take(j), value, max_depth) is Err,
    ensures
        children_of_found(k, schema_url, found, value, max_depth) == children_of_found(
            k,
            schema_url,
            found.take(j),
            value,
            max_depth,
        ),
    decreases found.len() - j,
{
    if j < found.len() {
        assert(found.take(j + 1).drop_last() =~= found.take(j));
        lemma_children_of_found_error(k, schema_url, found, value, max_depth, j + 1);
    } else {
        assert(found.take(j) =~= found);
    }
}

/// The schemas that describe what may be written at `path` of the document
/// `value` under the schema at `schema_url`, at most `max_depth` keys deep,
/// each once with its full path and its path relative to `path`; or what is
/// needed to go on, or why it failed.
pub fn possible_schemas_from(
    k: &Knowledge,
    schema_url: &str,
    value: &JsonValue,
    path: &Vec<KeyOrIndex>,
    max_depth: usize,
) -> (r: Result<Vec<(Vec<KeyOrIndex>, Vec<KeyOrIndex>, JsonValue)>, Halt>)
    ensures
        match r {
            Ok(children) => spec_possible_schemas_from(*k, schema_url@, value@, path@, max_depth as nat)
                == Ok::<Seq<ChildView>, HaltView>(found_children(children@)),
            Err(h) => spec_possible_schemas_from(*k, schema_url@, value@, path@, max_depth as nat)
                == Err::<Seq<ChildView>, HaltView>(h@),
        },
{
    let found = match schemas_at_path(k, schema_url, value, path) {
        Ok(f) => f,
        Err(h) => return Err(h),
    };
    let ghost fv = found_schemas(found@);
    let mut children: Vec<(Vec<KeyOrIndex>, Vec<KeyOrIndex>, JsonValue)> = Vec::new();
    let mut i: usize = 0;
    assert(fv.take(0) =~= Seq::<FoundView>::empty());
    assert(found_children(children@) =~= Seq::<ChildView>::empty());
    while i < found.len()
        invariant
            0 <= i <= found@.len(),
            fv == found_schemas(found@),
            spec_schemas_at_path(*k, schema_url@, value@, path@) == Ok::<Seq<FoundView>, HaltView>(fv),
            children_of_found(*k, schema_url@, fv.take(i as int), value@, max_depth as nat) == Ok::<
                Seq<ChildView>,
                HaltView,
            >(found_children(children@)),
        decreases found@.len() - i,
    {
        proof {
            assert(fv.take(i + 1).drop_last() =~= fv.take(i as int));
            assert(fv.take(i + 1).last() == fv[i as int]);
            assert(fv[i as int] == (found@[i as int].0@, found@[i as int].1@));
        }
        let instance = instance_at(value, &found[i].0);
        let empty: Vec<KeyOrIndex> = Vec::new();
        let mut fresh: Vec<String> = Vec::new();
        proof {
            assert(path_view(empty@) =~= Seq::<PathStep>::empty());
            assert(strs(fresh@) =~= Seq::<Seq<char>>::empty());
        }
        match children_exec(
            k,
            schema_url,
            &found[i].1,
            &found[i].0,
            &empty,
            instance,
            max_depth,
            MAX_COMPOSITION_DEPTH,
            &mut fresh,
            &mut children,
        ) {
            Err(h) => {
                proof {
                    lemma_children_of_found_error(*k, schema_url@, fv, value@, max_depth as nat, i + 1);
                }
                return Err(h);
            },
            Ok(_) => {},
        }
        i += 1;
    }
    proof {
        assert(fv.take(found@.len() as int) =~= fv);
    }
    Ok(dedup_children(children))
}

} // verus!
