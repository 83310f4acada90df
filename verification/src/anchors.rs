use vstd::prelude::*;

use crate::json::JsonValue;
use crate::jsonview::{
    json_entries_view, json_items_view, lemma_entries_view, lemma_entry_height, lemma_item_height, lemma_items_view,
    view_height, view_index, JsonView,
};
use crate::schema::{rebase, spec_rebase, str_member, view_str};
use crate::text::str_equals;
use crate::traversal::refs_view;
use crate::urls::{join_url, url_join, url_with_fragment, with_fragment};

verus! {

/// Keywords whose value is one subschema, as draft 7 reads a schema.
pub open spec fn is_single_d7(k: Seq<char>) -> bool {
    k == "additionalItems"@ || k == "additionalProperties"@ || k == "contains"@ || k == "else"@ || k == "if"@
        || k == "not"@ || k == "propertyNames"@ || k == "then"@
}

/// Keywords whose value is an array of subschemas, as draft 7 reads one.
pub open spec fn is_list_d7(k: Seq<char>) -> bool {
    k == "allOf"@ || k == "anyOf"@ || k == "oneOf"@
}

/// Keywords whose value maps names to subschemas, as draft 7 reads one.
pub open spec fn is_map_d7(k: Seq<char>) -> bool {
    k == "definitions"@ || k == "patternProperties"@ || k == "properties"@
}

/// Keywords whose value is one subschema in draft 2020-12 and none in
/// draft 7.
pub open spec fn is_single_2020_only(k: Seq<char>) -> bool {
    k == "contentSchema"@ || k == "unevaluatedItems"@ || k == "unevaluatedProperties"@
}

/// Keywords whose value maps names to subschemas in draft 2020-12 and
/// nothing in draft 7.
pub open spec fn is_map_2020_only(k: Seq<char>) -> bool {
    k == "$defs"@ || k == "dependentSchemas"@
}

/// The values of an object's members, in order.
pub open spec fn values_of(es: Seq<(Seq<char>, JsonView)>) -> Seq<JsonView> {
    es.map_values(|e: (Seq<char>, JsonView)| e.1)
}

/// The values of an object's members that are objects, in order.
pub open spec fn object_values_of(es: Seq<(Seq<char>, JsonView)>) -> Seq<JsonView>
    decreases es.len(),
{
    if es.len() == 0 {
        Seq::empty()
    } else if es.last().1 is Object {
        object_values_of(es.drop_last()).push(es.last().1)
    } else {
        object_values_of(es.drop_last())
    }
}

/// The subschemas draft 7 finds under one member of a schema.
pub open spec fn draft7_member_children(k: Seq<char>, v: JsonView) -> Seq<JsonView> {
    if is_single_d7(k) {
        seq![v]
    } else if is_list_d7(k) {
        match v {
            JsonView::Array(xs) => xs,
            _ => Seq::empty(),
        }
    } else if is_map_d7(k) {
        match v {
            JsonView::Object(es) => values_of(es),
            _ => Seq::empty(),
        }
    } else if k == "items"@ {
        match v {
            JsonView::Array(xs) => xs,
            _ => seq![v],
        }
    } else if k == "dependencies"@ {
        match v {
            JsonView::Object(es) => object_values_of(es),
            _ => Seq::empty(),
        }
    } else {
        Seq::empty()
    }
}

/// The subschemas draft 2020-12 finds under one member of a schema that
/// draft 7 does not.
pub open spec fn draft2020_member_children(k: Seq<char>, v: JsonView) -> Seq<JsonView> {
    if is_single_2020_only(k) {
        seq![v]
    } else if k == "items"@ {
        match v {
            JsonView::Array(_) => seq![v],
            _ => Seq::empty(),
        }
    } else if k == "prefixItems"@ {
        match v {
            JsonView::Array(xs) => xs,
            _ => Seq::empty(),
        }
    } else if is_map_2020_only(k) {
        match v {
            JsonView::Object(es) => values_of(es),
            _ => Seq::empty(),
        }
    } else {
        Seq::empty()
    }
}

/// The subschemas draft 7 finds under one member, or those only draft
/// 2020-12 finds.
pub open spec fn member_children(k: Seq<char>, v: JsonView, draft7: bool) -> Seq<JsonView> {
    if draft7 {
        draft7_member_children(k, v)
    } else {
        draft2020_member_children(k, v)
    }
}

/// The subschemas found under the members of a schema, member by member:
/// those draft 7 finds, or those only draft 2020-12 finds.
pub open spec fn members_children(es: Seq<(Seq<char>, JsonView)>, draft7: bool) -> Seq<JsonView>
    decreases es.len(),
{
    if es.len() == 0 {
        Seq::empty()
    } else {
        members_children(es.drop_last(), draft7) + member_children(es.last().0, es.last().1, draft7)
    }
}

/// The subschemas of a schema, each once: those `jsonschema`'s draft 7
/// names (`Draft::subresources_of`), then those its draft 2020-12 names that
/// draft 7 does not.
pub open spec fn spec_schema_children(v: JsonView) -> Seq<JsonView> {
    match v {
        JsonView::Object(es) => members_children(es, true) + members_children(es, false),
        _ => Seq::empty(),
    }
}

proof fn lemma_object_values_height(es: Seq<(Seq<char>, JsonView)>, bound: nat)
    requires
        forall|j: int| 0 <= j < es.len() ==> #[trigger] view_height(es[j].1) < bound,
    ensures
        forall|i: int| 0 <= i < object_values_of(es).len() ==> #[trigger] view_height(object_values_of(es)[i]) < bound,
    decreases es.len(),
{
    if es.len() > 0 {
        assert forall|j: int| 0 <= j < es.drop_last().len() implies #[trigger] view_height(es.drop_last()[j].1) < bound by {
            assert(es.drop_last()[j] == es[j]);
        }
        lemma_object_values_height(es.drop_last(), bound);
        let prev = object_values_of(es.drop_last());
        assert(view_height(es[es.len() - 1].1) < bound);
        assert forall|i: int| 0 <= i < object_values_of(es).len() implies #[trigger] view_height(object_values_of(es)[i])
            < bound by {
            if i < prev.len() {
                assert(object_values_of(es)[i] == prev[i]);
            } else {
                assert(object_values_of(es)[i] == es.last().1);
            }
        }
    }
}

proof fn lemma_member_children_height(es: Seq<(Seq<char>, JsonView)>, j: int, draft7: bool)
    requires
        0 <= j < es.len(),
    ensures
        forall|i: int| 0 <= i < member_children(es[j].0, es[j].1, draft7).len() ==> #[trigger] view_height(
            member_children(es[j].0, es[j].1, draft7)[i],
        ) < view_height(JsonView::Object(es)),
{
    let v = es[j].1;
    lemma_entry_height(es, j);
    match v {
        JsonView::Array(xs) => {
            assert forall|i: int| 0 <= i < xs.len() implies #[trigger] view_height(xs[i]) < view_height(v) by {
                lemma_item_height(xs, i);
            }
        },
        JsonView::Object(inner) => {
            assert forall|i: int| 0 <= i < inner.len() implies #[trigger] view_height(inner[i].1) < view_height(v) by {
                lemma_entry_height(inner, i);
            }
            lemma_object_values_height(inner, view_height(v));
            assert forall|i: int| 0 <= i < values_of(inner).len() implies #[trigger] view_height(values_of(inner)[i])
                < view_height(v) by {
                lemma_entry_height(inner, i);
            }
        },
        _ => {},
    }
}

proof fn lemma_members_children_height(es: Seq<(Seq<char>, JsonView)>, draft7: bool)
    ensures
        forall|i: int| 0 <= i < members_children(es, draft7).len() ==> #[trigger] view_height(
            members_children(es, draft7)[i],
        ) < view_height(JsonView::Object(es)),
    decreases es.len(),
{
    if es.len() > 0 {
        let prev = es.drop_last();
        lemma_members_children_height(prev, draft7);
        lemma_entry_height(es, es.len() - 1);
        lemma_member_children_height(es, es.len() - 1, draft7);
        let head = members_children(prev, draft7);
        let tail = member_children(es.last().0, es.last().1, draft7);
        assert forall|i: int| 0 <= i < members_children(es, draft7).len() implies #[trigger] view_height(
            members_children(es, draft7)[i],
        ) < view_height(JsonView::Object(es)) by {
            if i < head.len() {
                assert(members_children(es, draft7)[i] == head[i]);
            } else {
                assert(members_children(es, draft7)[i] == tail[i - head.len()]);
            }
        }
    }
}

/// Every subschema of a schema is less deep than the schema.
pub proof fn lemma_children_height(v: JsonView)
    ensures
        forall|i: int| 0 <= i < spec_schema_children(v).len() ==> #[trigger] view_height(spec_schema_children(v)[i])
            < view_height(v),
{
    if let JsonView::Object(es) = v {
        lemma_members_children_height(es, true);
        lemma_members_children_height(es, false);
        let a = members_children(es, true);
        let b = members_children(es, false);
        assert forall|i: int| 0 <= i < spec_schema_children(v).len() implies #[trigger] view_height(
            spec_schema_children(v)[i],
        ) < view_height(v) by {
            if i < a.len() {
                assert(spec_schema_children(v)[i] == a[i]);
            } else {
                assert(spec_schema_children(v)[i] == b[i - a.len()]);
            }
        }
    }
}

fn single_d7(k: &str) -> (b: bool)
    ensures
        b == is_single_d7(k@),
{
    str_equals(k, "additionalItems") || str_equals(k, "additionalProperties") || str_equals(k, "contains")
        || str_equals(k, "else") || str_equals(k, "if") || str_equals(k, "not") || str_equals(k, "propertyNames")
        || str_equals(k, "then")
}

fn list_d7(k: &str) -> (b: bool)
    ensures
        b == is_list_d7(k@),
{
    str_equals(k, "allOf") || str_equals(k, "anyOf") || str_equals(k, "oneOf")
}

fn map_d7(k: &str) -> (b: bool)
    ensures
        b == is_map_d7(k@),
{
    str_equals(k, "definitions") || str_equals(k, "patternProperties") || str_equals(k, "properties")
}

fn single_2020_only(k: &str) -> (b: bool)
    ensures
        b == is_single_2020_only(k@),
{
    str_equals(k, "contentSchema") || str_equals(k, "unevaluatedItems") || str_equals(k, "unevaluatedProperties")
}

fn map_2020_only(k: &str) -> (b: bool)
    ensures
        b == is_map_2020_only(k@),
{
    str_equals(k, "$defs") || str_equals(k, "dependentSchemas")
}

fn push_items<'a>(out: &mut Vec<&'a JsonValue>, xs: &'a Vec<JsonValue>)
    ensures
        refs_view(final(out)@) == refs_view(old(out)@) + json_items_view(xs@),
{
    proof {
        lemma_items_view(xs@);
    }
    let ghost start = refs_view(out@);
    let mut i: usize = 0;
    while i < xs.len()
        invariant
            0 <= i <= xs@.len(),
            json_items_view(xs@).len() == xs@.len(),
            forall|m: int| 0 <= m < xs@.len() ==> #[trigger] json_items_view(xs@)[m] == xs@[m]@,
            refs_view(out@) == start + json_items_view(xs@).take(i as int),
        decreases xs@.len() - i,
    {
        let ghost before = out@;
        out.push(&xs[i]);
        assert(refs_view(out@) =~= refs_view(before).push(xs@[i as int]@));
        assert(json_items_view(xs@).take(i + 1) =~= json_items_view(xs@).take(i as int).push(xs@[i as int]@));
        i += 1;
    }
    assert(json_items_view(xs@).take(xs@.len() as int) =~= json_items_view(xs@));
}

fn push_values<'a>(out: &mut Vec<&'a JsonValue>, es: &'a Vec<(String, JsonValue)>, objects_only: bool)
    ensures
        refs_view(final(out)@) == refs_view(old(out)@) + if objects_only {
            object_values_of(json_entries_view(es@))
        } else {
            values_of(json_entries_view(es@))
        },
{
    proof {
        lemma_entries_view(es@);
    }
    let ghost ev = json_entries_view(es@);
    let ghost start = refs_view(out@);
    let mut i: usize = 0;
    while i < es.len()
        invariant
            0 <= i <= es@.len(),
            ev == json_entries_view(es@),
            ev.len() == es@.len(),
            forall|m: int| 0 <= m < es@.len() ==> #[trigger] ev[m] == (es@[m].0@, es@[m].1@),
            refs_view(out@) == start + if objects_only {
                object_values_of(ev.take(i as int))
            } else {
                values_of(ev.take(i as int))
            },
        decreases es@.len() - i,
    {
        let ghost before = out@;
        proof {
            assert(ev.take(i + 1).drop_last() =~= ev.take(i as int));
            assert(ev.take(i + 1).last() == ev[i as int]);
            assert(values_of(ev.take(i + 1)) =~= values_of(ev.take(i as int)).push(es@[i as int].1@));
        }
        let is_object = match &es[i].1 {
            JsonValue::Object(_) => true,
            _ => false,
        };
        if !objects_only || is_object {
            out.push(&es[i].1);
            assert(refs_view(out@) =~= refs_view(before).push(es@[i as int].1@));
        }
        i += 1;
    }
    assert(ev.take(es@.len() as int) =~= ev);
}

fn push_member_children<'a>(out: &mut Vec<&'a JsonValue>, k: &str, v: &'a JsonValue, draft7: bool)
    ensures
        refs_view(final(out)@) == refs_view(old(out)@) + member_children(k@, v@, draft7),
{
    let ghost start = refs_view(out@);
    if draft7 {
        if single_d7(k) {
            out.push(v);
        } else if list_d7(k) {
            if let JsonValue::Array(xs) = v {
                push_items(out, xs);
            }
        } else if map_d7(k) {
            if let JsonValue::Object(es) = v {
                push_values(out, es, false);
            }
        } else if str_equals(k, "items") {
            match v {
                JsonValue::Array(xs) => push_items(out, xs),
                _ => out.push(v),
            }
        } else if str_equals(k, "dependencies") {
            if let JsonValue::Object(es) = v {
                push_values(out, es, true);
            }
        }
    } else {
        if single_2020_only(k) {
            out.push(v);
        } else if str_equals(k, "items") {
            if let JsonValue::Array(_) = v {
                out.push(v);
            }
        } else if str_equals(k, "prefixItems") {
            if let JsonValue::Array(xs) = v {
                push_items(out, xs);
            }
        } else if map_2020_only(k) {
            if let JsonValue::Object(es) = v {
                push_values(out, es, false);
            }
        }
    }
    assert(refs_view(out@) =~= start + member_children(k@, v@, draft7));
}

/// The subschemas of a schema, each once: those draft 7 names, then those
/// only draft 2020-12 names.
pub fn schema_children<'a>(v: &'a JsonValue) -> (r: Vec<&'a JsonValue>)
    ensures
        refs_view(r@) == spec_schema_children(v@),
{
    let mut out: Vec<&'a JsonValue> = Vec::new();
    if let JsonValue::Object(es) = v {
        proof {
            lemma_entries_view(es@);
        }
        let ghost ev = json_entries_view(es@);
        let mut pass: usize = 0;
        let mut draft7 = true;
        assert(refs_view(out@) =~= Seq::<JsonView>::empty());
        while pass < 2
            invariant
                0 <= pass <= 2,
                draft7 == (pass == 0),
                ev == json_entries_view(es@),
                ev.len() == es@.len(),
                forall|m: int| 0 <= m < es@.len() ==> #[trigger] ev[m] == (es@[m].0@, es@[m].1@),
                refs_view(out@) == if pass == 0 {
                    Seq::<JsonView>::empty()
                } else if pass == 1 {
                    members_children(ev, true)
                } else {
                    members_children(ev, true) + members_children(ev, false)
                },
            decreases 2 - pass,
        {
            let ghost start = refs_view(out@);
            let mut i: usize = 0;
            assert(ev.take(0) =~= Seq::<(Seq<char>, JsonView)>::empty());
            assert(start =~= start + members_children(ev.take(0), draft7));
            while i < es.len()
                invariant
                    0 <= i <= es@.len(),
                    ev == json_entries_view(es@),
                    ev.len() == es@.len(),
                    forall|m: int| 0 <= m < es@.len() ==> #[trigger] ev[m] == (es@[m].0@, es@[m].1@),
                    refs_view(out@) == start + members_children(ev.take(i as int), draft7),
                decreases es@.len() - i,
            {
                proof {
                    assert(ev.take(i + 1).drop_last() =~= ev.take(i as int));
                    assert(ev.take(i + 1).last() == ev[i as int]);
                }
                push_member_children(&mut out, es[i].0.as_str(), &es[i].1, draft7);
                assert(refs_view(out@) =~= start + members_children(ev.take(i + 1), draft7));
                i += 1;
            }
            assert(ev.take(es@.len() as int) =~= ev);
            pass += 1;
            draft7 = false;
        }
    }
    out
}

/// Whether `document` claims, with the anchor keyword `keyword`, the
/// plain-name fragment of `url` under `scope`: the anchor set as the
/// fragment of `scope` gives `url`.
pub open spec fn names_anchor(document: JsonView, keyword: Seq<char>, scope: Seq<char>, url: Seq<char>) -> bool {
    match view_str(view_index(document, keyword)) {
        Some(anchor) => url_with_fragment(scope, anchor) == Some(url),
        None => false,
    }
}

/// The schema within `document` that `url` names, by the `$id` it declares
/// or the `$anchor` or `$dynamicAnchor` it carries, searched depth first
/// through the subschemas; with the base in force around it.
pub open spec fn spec_anchored_subschema(document: JsonView, base: Seq<char>, url: Seq<char>) -> Option<
    (Seq<char>, JsonView),
>
    decreases view_height(document), 1nat, 0nat,
{
    let declared = match view_str(view_index(document, "$id"@)) {
        Some(id) => url_join(base, id),
        None => None,
    };
    if declared == Some(url) {
        Some((base, document))
    } else {
        let scope = match spec_rebase(base, document) {
            Some(b) => b,
            None => base,
        };
        if names_anchor(document, "$anchor"@, scope, url) || names_anchor(document, "$dynamicAnchor"@, scope, url) {
            Some((base, document))
        } else {
            anchored_among(spec_schema_children(document), scope, url, view_height(document))
        }
    }
}

/// The first of `children` within which `url` names a schema, searched in
/// order; each is less deep than `bound`.
pub open spec fn anchored_among(children: Seq<JsonView>, scope: Seq<char>, url: Seq<char>, bound: nat) -> Option<
    (Seq<char>, JsonView),
>
    decreases bound, 0nat, children.len(),
{
    if children.len() == 0 {
        None
    } else if view_height(children[0]) < bound {
        match spec_anchored_subschema(children[0], scope, url) {
            Some(found) => Some(found),
            None => anchored_among(children.drop_first(), scope, url, bound),
        }
    } else {
        None
    }
}

fn anchor_claims(document: &JsonValue, keyword: &str, scope: &str, url: &str) -> (b: bool)
    ensures
        b == names_anchor(document@, keyword@, scope@, url@),
{
    match str_member(document, keyword) {
        Some(anchor) => match with_fragment(scope, anchor) {
            Some(anchored) => str_equals(anchored.as_str(), url),
            None => false,
        },
        None => false,
    }
}

/// Finds the schema within `document` that `url` names, by the `$id` it
/// declares or the anchor it carries, keeping the base in force around it.
pub fn anchored_subschema<'d>(document: &'d JsonValue, base: &str, url: &str) -> (r: Option<(String, &'d JsonValue)>)
    ensures
        match r {
            Some((b, v)) => spec_anchored_subschema(document@, base@, url@) == Some((b@, v@)),
            None => spec_anchored_subschema(document@, base@, url@) is None,
        },
    decreases view_height(document@),
{
    let declared = match str_member(document, "$id") {
        Some(id) => join_url(base, id),
        None => None,
    };
    if let Some(d) = &declared {
        if str_equals(d.as_str(), url) {
            return Some((base.to_owned(), document));
        }
    }
    proof {
        reveal_strlit("$anchor");
        reveal_strlit("$dynamicAnchor");
    }
    let scope = match rebase(base, document) {
        Some(b) => b,
        None => base.to_owned(),
    };
    if anchor_claims(document, "$anchor", scope.as_str(), url) || anchor_claims(
        document,
        "$dynamicAnchor",
        scope.as_str(),
        url,
    ) {
        return Some((base.to_owned(), document));
    }
    let children = schema_children(document);
    let ghost cv = refs_view(children@);
    let ghost h = view_height(document@);
    proof {
        lemma_children_height(document@);
    }
    let mut i: usize = 0;
    assert(cv.skip(0) =~= cv);
    assert(spec_anchored_subschema(document@, base@, url@) == anchored_among(cv, scope@, url@, h));
    while i < children.len()
        invariant
            0 <= i <= children@.len(),
            spec_anchored_subschema(document@, base@, url@) == anchored_among(cv, scope@, url@, h),
            cv == refs_view(children@),
            cv.len() == children@.len(),
            h == view_height(document@),
            forall|m: int| 0 <= m < cv.len() ==> #[trigger] view_height(cv[m]) < h,
            anchored_among(cv, scope@, url@, h) == anchored_among(cv.skip(i as int), scope@, url@, h),
        decreases children@.len() - i,
    {
        let ghost rest = cv.skip(i as int);
        assert(rest[0] == cv[i as int]);
        assert(rest.drop_first() =~= cv.skip(i + 1));
        assert(cv[i as int] == children@[i as int]@);
        assert(view_height(children@[i as int]@) < h);
        match anchored_subschema(children[i], scope.as_str(), url) {
            Some(found) => {
                return Some(found);
            },
            None => {},
        }
        i += 1;
    }
    None
}

} // verus!
