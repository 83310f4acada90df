use vstd::prelude::*;

use crate::json::{entries_get, json_equals, JsonValue};
use crate::jsonview::{
    copy_entries, copy_items, copy_json, entries_contain, entries_insert, entries_remove, view_remove, json_entries_view, json_items_view,
    json_view, lemma_entries_view, lemma_entry_height, lemma_get_view, lemma_items_view,
    keys_distinct, lemma_index_view, lemma_json_eq_view, lemma_view_eq_reflexive, lemma_view_get_absent,
    lemma_view_get_insert, lemma_view_get_push, lemma_member_height, set_member, set_member_exec, view_contains, view_eq, view_get,
    view_height, view_index, view_insert, JsonView,
};
use crate::ext::opt_chars;
use crate::patterns::{pattern_search, regex_search};
use crate::text::str_equals;
use crate::urls::{
    join_url, parse_host_and_path, strip_fragment, url_host_and_path, url_join, url_without_fragment,
};

verus! {

/// Keywords that identify a schema object or hold what its references point
/// at, rather than describe an instance: `$ref`, `$id`, `$anchor`,
/// `$schema`, `$comment`, `definitions` and `$defs`.
pub open spec fn is_identity_keyword(k: Seq<char>) -> bool {
    k == "$ref"@ || k == "$id"@ || k == "$anchor"@ || k == "$schema"@ || k == "$comment"@ || k
        == "definitions"@ || k == "$defs"@
}

/// The entries of `es` whose keys describe an instance, in order.
pub open spec fn sibling_entries(es: Seq<(Seq<char>, JsonView)>) -> Seq<(Seq<char>, JsonView)>
    decreases es.len(),
{
    if es.len() == 0 {
        Seq::empty()
    } else if is_identity_keyword(es.last().0) {
        sibling_entries(es.drop_last())
    } else {
        sibling_entries(es.drop_last()).push(es.last())
    }
}

/// The keywords beside a `$ref` that describe the instance, or `None` when
/// the object carries nothing but identity.
pub open spec fn spec_sibling_overlay(schema: JsonView) -> Option<JsonView> {
    match schema {
        JsonView::Object(es) => if sibling_entries(es).len() == 0 {
            None
        } else {
            Some(JsonView::Object(sibling_entries(es)))
        },
        _ => None,
    }
}

/// Whether a key is one of the identity keywords.
fn identity_keyword(k: &str) -> (r: bool)
    ensures
        r == is_identity_keyword(k@),
{
    str_equals(k, "$ref") || str_equals(k, "$id") || str_equals(k, "$anchor") || str_equals(
        k,
        "$schema",
    ) || str_equals(k, "$comment") || str_equals(k, "definitions") || str_equals(k, "$defs")
}

/// The keywords beside a `$ref` that describe the instance, or `None` when
/// the object carries only the reference and its own identity.
///
/// `$id`, `$anchor` and `$schema` identify the carrier rather than describe
/// an instance; `definitions` and `$defs` hold what the reference points
/// at.
pub fn sibling_overlay(schema: &JsonValue) -> (r: Option<JsonValue>)
    ensures
        match r {
            Some(v) => spec_sibling_overlay(schema@) == Some(v@),
            None => spec_sibling_overlay(schema@) is None,
        },
{
    let es = match schema {
        JsonValue::Object(es) => es,
        _ => return None,
    };
    let ghost ev = json_entries_view(es@);
    proof {
        lemma_entries_view(es@);
    }
    let mut out: Vec<(String, JsonValue)> = Vec::new();
    let mut i: usize = 0;
    while i < es.len()
        invariant
            0 <= i <= es@.len(),
            ev == json_entries_view(es@),
            ev.len() == es@.len(),
            forall|k: int| 0 <= k < es@.len() ==> #[trigger] ev[k] == (es@[k].0@, es@[k].1@),
            json_entries_view(out@) == sibling_entries(ev.take(i as int)),
        decreases es@.len() - i,
    {
        proof {
            assert(ev.take(i + 1).drop_last() =~= ev.take(i as int));
            assert(ev.take(i + 1).last() == ev[i as int]);
        }
        if !identity_keyword(es[i].0.as_str()) {
            let k = es[i].0.clone();
            let v = copy_json(&es[i].1);
            let ghost before = out@;
            out.push((k, v));
            proof {
                lemma_entries_view(out@);
                lemma_entries_view(before);
                assert(json_entries_view(out@) =~= json_entries_view(before).push(ev[i as int]));
            }
        }
        i += 1;
    }
    proof {
        assert(ev.take(es@.len() as int) =~= ev);
        lemma_entries_view(out@);
    }
    if out.len() == 0 {
        None
    } else {
        Some(JsonValue::Object(out))
    }
}

/// The items of an array, or none for any other value.
pub open spec fn array_items(v: JsonView) -> Seq<JsonView> {
    match v {
        JsonView::Array(xs) => xs,
        _ => Seq::empty(),
    }
}

/// `u` with each of `items` appended, in order, unless a value equal to it
/// is already there.
pub open spec fn union_items(u: Seq<JsonView>, items: Seq<JsonView>) -> Seq<JsonView>
    decreases items.len(),
{
    if items.len() == 0 {
        u
    } else {
        let p = union_items(u, items.drop_last());
        if view_contains(p, items.last()) {
            p
        } else {
            p.push(items.last())
        }
    }
}

/// `base` with `overlay` merged over it. Two objects merge key by key, in
/// the overlay's order; anything else is replaced by the overlay.
pub open spec fn spec_merged_over(base: JsonView, overlay: JsonView) -> JsonView
    decreases overlay, 1int,
{
    match base {
        JsonView::Object(bm) => match overlay {
            JsonView::Object(om) => JsonView::Object(merge_entries(bm, om)),
            _ => overlay,
        },
        _ => overlay,
    }
}

/// The entries `merged` holds once each entry of `om` is merged in, in order.
pub open spec fn merge_entries(
    merged: Seq<(Seq<char>, JsonView)>,
    om: Seq<(Seq<char>, JsonView)>,
) -> Seq<(Seq<char>, JsonView)>
    decreases om, 0int,
{
    if om.len() == 0 {
        merged
    } else {
        let prev = merge_entries(merged, om.drop_last());
        let key = om.last().0;
        view_insert(prev, key, merged_value(view_get(prev, key), key, om.last().1))
    }
}

/// What a key holds once the overlay's `value` is merged over what the base
/// holds there: a `required` list gains the overlay's items, `const` and
/// `default` are replaced, and any other keyword merges recursively.
pub open spec fn merged_value(existing: Option<JsonView>, key: Seq<char>, value: JsonView) -> JsonView
    decreases value, 2int,
{
    match existing {
        Some(e) => if key == "required"@ && e is Array {
            JsonView::Array(union_items(e->Array_0, array_items(value)))
        } else if key != "const"@ && key != "default"@ {
            spec_merged_over(e, value)
        } else {
            value
        },
        None => value,
    }
}

/// The value under `key` among `es`, the first such entry.
pub(crate) fn entries_lookup<'a>(es: &'a Vec<(String, JsonValue)>, key: &str) -> (r: Option<&'a JsonValue>)
    ensures
        match r {
            Some(v) => view_get(json_entries_view(es@), key@) == Some(v@),
            None => view_get(json_entries_view(es@), key@) is None,
        },
{
    proof {
        lemma_get_view(es@, key@);
    }
    let mut i: usize = 0;
    assert(es@.skip(0) =~= es@);
    while i < es.len()
        invariant
            0 <= i <= es@.len(),
            entries_get(es@, key@) == entries_get(es@.skip(i as int), key@),
        decreases es@.len() - i,
    {
        assert(es@.skip(i as int).drop_first() =~= es@.skip(i + 1));
        assert(es@.skip(i as int)[0] == es@[i as int]);
        if str_equals(es[i].0.as_str(), key) {
            assert(entries_get(es@.skip(i as int), key@) == Some(es@[i as int].1));
            proof {
                lemma_get_view(es@, key@);
            }
            return Some(&es[i].1);
        }
        i += 1;
    }
    None
}

/// Whether `items` holds a value equal to `x`.
fn items_contain(items: &Vec<JsonValue>, x: &JsonValue) -> (r: bool)
    ensures
        r == view_contains(json_items_view(items@), x@),
{
    proof {
        lemma_items_view(items@);
    }
    let mut j: usize = 0;
    while j < items.len()
        invariant
            0 <= j <= items@.len(),
            json_items_view(items@).len() == items@.len(),
            forall|k: int| 0 <= k < items@.len() ==> #[trigger] json_items_view(items@)[k] == items@[k]@,
            forall|k: int| 0 <= k < j ==> !view_eq(#[trigger] json_items_view(items@)[k], x@),
        decreases items@.len() - j,
    {
        let same = json_equals(&items[j], x);
        proof {
            lemma_json_eq_view(items@[j as int], *x);
        }
        if same {
            assert(view_eq(json_items_view(items@)[j as int], x@));
            return true;
        }
        j += 1;
    }
    false
}

/// The union of a `required` list with the items of `value`: each item not
/// already present is appended, in order.
fn union_required(existing: &Vec<JsonValue>, value: &JsonValue) -> (r: Vec<JsonValue>)
    ensures
        json_items_view(r@) == union_items(json_items_view(existing@), array_items(value@)),
{
    let mut union = copy_items(existing);
    match value {
        JsonValue::Array(items) => {
            let ghost iv = json_items_view(items@);
            proof {
                lemma_items_view(items@);
                assert(array_items(value@) == iv);
            }
            let mut i: usize = 0;
            while i < items.len()
                invariant
                    0 <= i <= items@.len(),
                    iv == json_items_view(items@),
                    iv.len() == items@.len(),
                    forall|k: int| 0 <= k < items@.len() ==> #[trigger] iv[k] == items@[k]@,
                    json_items_view(union@) == union_items(
                        json_items_view(existing@),
                        iv.take(i as int),
                    ),
                decreases items@.len() - i,
            {
                proof {
                    assert(iv.take(i + 1).drop_last() =~= iv.take(i as int));
                    assert(iv.take(i + 1).last() == iv[i as int]);
                }
                if !items_contain(&union, &items[i]) {
                    let c = copy_json(&items[i]);
                    let ghost before = union@;
                    union.push(c);
                    proof {
                        lemma_items_view(union@);
                        lemma_items_view(before);
                        assert(json_items_view(union@) =~= json_items_view(before).push(iv[i as int]));
                    }
                }
                i += 1;
            }
            proof {
                assert(iv.take(items@.len() as int) =~= iv);
            }
        },
        _ => {
            assert(array_items(value@) =~= Seq::<JsonView>::empty());
        },
    }
    union
}

/// `base` with `overlay` merged over it: annotations are overlaid, schema
/// maps combine recursively, and `required` lists form a union.
pub fn merged_over(base: &JsonValue, overlay: &JsonValue) -> (r: JsonValue)
    ensures
        r@ == spec_merged_over(base@, overlay@),
    decreases overlay,
{
    let bm = match base {
        JsonValue::Object(bm) => bm,
        _ => return copy_json(overlay),
    };
    let om = match overlay {
        JsonValue::Object(om) => om,
        _ => return copy_json(overlay),
    };
    let ghost bv = json_entries_view(bm@);
    let ghost ov = json_entries_view(om@);
    proof {
        lemma_entries_view(om@);
    }
    let mut merged = copy_entries(bm);
    let mut i: usize = 0;
    while i < om.len()
        invariant
            0 <= i <= om@.len(),
            *overlay == JsonValue::Object(*om),
            ov == json_entries_view(om@),
            ov.len() == om@.len(),
            forall|k: int| 0 <= k < om@.len() ==> #[trigger] ov[k] == (om@[k].0@, om@[k].1@),
            json_entries_view(merged@) == merge_entries(bv, ov.take(i as int)),
        decreases om@.len() - i,
    {
        let ghost prev = json_entries_view(merged@);
        proof {
            assert(ov.take(i + 1).drop_last() =~= ov.take(i as int));
            assert(ov.take(i + 1).last() == ov[i as int]);
        }
        let key = &om[i].0;
        let value = &om[i].1;
        let m = match entries_lookup(&merged, key.as_str()) {
            Some(existing) => {
                if str_equals(key.as_str(), "required") && existing.as_array().is_some() {
                    match existing {
                        JsonValue::Array(ex) => JsonValue::Array(union_required(ex, value)),
                        _ => copy_json(value),
                    }
                } else if !str_equals(key.as_str(), "const") && !str_equals(
                    key.as_str(),
                    "default",
                ) {
                    assert(decreases_to!(*overlay => (*overlay)->Object_0@[i as int].1));
                    merged_over(existing, value)
                } else {
                    copy_json(value)
                }
            },
            None => copy_json(value),
        };
        assert(m@ == merged_value(view_get(prev, key@), key@, value@));
        entries_insert(&mut merged, key.clone(), m);
        i += 1;
    }
    proof {
        assert(ov.take(om@.len() as int) =~= ov);
    }
    JsonValue::Object(merged)
}

/// The values of `l` that `r` holds an equal of, in order.
pub open spec fn intersect_items(l: Seq<JsonView>, r: Seq<JsonView>) -> Seq<JsonView>
    decreases l.len(),
{
    if l.len() == 0 {
        Seq::empty()
    } else {
        let p = intersect_items(l.drop_last(), r);
        if view_contains(r, l.last()) {
            p.push(l.last())
        } else {
            p
        }
    }
}

/// The entries of `v[key]` when it is an object.
pub open spec fn object_member(v: JsonView, key: Seq<char>) -> Option<Seq<(Seq<char>, JsonView)>> {
    match view_index(v, key) {
        JsonView::Object(es) => Some(es),
        _ => None,
    }
}

/// The entries `base` and `overlay` hold under `key`, when both are objects.
pub open spec fn keyword_members(base: JsonView, overlay: JsonView, key: Seq<char>) -> Option<
    (Seq<(Seq<char>, JsonView)>, Seq<(Seq<char>, JsonView)>),
> {
    match (object_member(base, key), object_member(overlay, key)) {
        (Some(l), Some(r)) => Some((l, r)),
        _ => None,
    }
}

pub proof fn lemma_object_member_height(v: JsonView, key: Seq<char>)
    requires
        object_member(v, key) is Some,
    ensures
        view_height(JsonView::Object(object_member(v, key)->0)) < view_height(v),
{
    lemma_member_height(v, key);
}

/// `merged` once each entry of `r` whose key `l` also holds has its merge
/// stored under `merged[kw][key]`, in order.
pub open spec fn merge_member_entries(
    merged: JsonView,
    kw: Seq<char>,
    l: Seq<(Seq<char>, JsonView)>,
    r: Seq<(Seq<char>, JsonView)>,
) -> JsonView
    decreases view_height(JsonView::Object(r)), r.len(),
{
    if r.len() == 0 {
        merged
    } else {
        proof {
            lemma_entry_height(r, r.len() - 1);
        }
        let p = merge_member_entries(merged, kw, l, r.drop_last());
        let key = r.last().0;
        let value = r.last().1;
        match view_get(l, key) {
            Some(existing) => set_member(
                p,
                kw,
                set_member(view_index(p, kw), key, spec_merged_all_of(existing, value)),
            ),
            None => p,
        }
    }
}

/// The merge of two `allOf` members: `overlay` merged over `base`, then
/// `enum` narrowed to the values both admit, and each property, pattern
/// property and definition that both declare merged the same way.
pub open spec fn spec_merged_all_of(base: JsonView, overlay: JsonView) -> JsonView
    decreases view_height(overlay), 0int,
{
    let m0 = spec_merged_over(base, overlay);
    let m1 = match (view_index(base, "enum"@), view_index(overlay, "enum"@)) {
        (JsonView::Array(l), JsonView::Array(r)) => set_member(
            m0,
            "enum"@,
            JsonView::Array(intersect_items(l, r)),
        ),
        _ => m0,
    };
    let m2 = match keyword_members(base, overlay, "properties"@) {
        Some((l, r)) => {
            proof {
                lemma_object_member_height(overlay, "properties"@);
            }
            merge_member_entries(m1, "properties"@, l, r)
        },
        None => m1,
    };
    let m3 = match keyword_members(base, overlay, "patternProperties"@) {
        Some((l, r)) => {
            proof {
                lemma_object_member_height(overlay, "patternProperties"@);
            }
            merge_member_entries(m2, "patternProperties"@, l, r)
        },
        None => m2,
    };
    let m4 = match keyword_members(base, overlay, "$defs"@) {
        Some((l, r)) => {
            proof {
                lemma_object_member_height(overlay, "$defs"@);
            }
            merge_member_entries(m3, "$defs"@, l, r)
        },
        None => m3,
    };
    match keyword_members(base, overlay, "definitions"@) {
        Some((l, r)) => {
            proof {
                lemma_object_member_height(overlay, "definitions"@);
            }
            merge_member_entries(m4, "definitions"@, l, r)
        },
        None => m4,
    }
}

/// The values of `left` that `right` holds an equal of, in order.
fn intersect_enum(left: &Vec<JsonValue>, right: &Vec<JsonValue>) -> (r: Vec<JsonValue>)
    ensures
        json_items_view(r@) == intersect_items(json_items_view(left@), json_items_view(right@)),
{
    let ghost lv = json_items_view(left@);
    let ghost rv = json_items_view(right@);
    proof {
        lemma_items_view(left@);
    }
    let mut out: Vec<JsonValue> = Vec::new();
    let mut i: usize = 0;
    while i < left.len()
        invariant
            0 <= i <= left@.len(),
            lv == json_items_view(left@),
            rv == json_items_view(right@),
            lv.len() == left@.len(),
            forall|k: int| 0 <= k < left@.len() ==> #[trigger] lv[k] == left@[k]@,
            json_items_view(out@) == intersect_items(lv.take(i as int), rv),
        decreases left@.len() - i,
    {
        proof {
            assert(lv.take(i + 1).drop_last() =~= lv.take(i as int));
            assert(lv.take(i + 1).last() == lv[i as int]);
        }
        if items_contain(right, &left[i]) {
            let c = copy_json(&left[i]);
            let ghost before = out@;
            out.push(c);
            proof {
                lemma_items_view(out@);
                lemma_items_view(before);
                assert(json_items_view(out@) =~= json_items_view(before).push(lv[i as int]));
            }
        }
        i += 1;
    }
    proof {
        assert(lv.take(left@.len() as int) =~= lv);
    }
    out
}

/// The member `key` of a value, as `Option<&JsonValue>` that its view
/// agrees with.
pub(crate) fn member<'a>(v: &'a JsonValue, key: &str) -> (r: Option<&'a JsonValue>)
    ensures
        match r {
            Some(m) => view_index(v@, key@) == m@ && v@ is Object && view_get(
                v@->Object_0,
                key@,
            ) is Some,
            None => view_index(v@, key@) is Null,
        },
{
    let r = v.get(key);
    proof {
        lemma_index_view(*v, key@);
        match v {
            JsonValue::Object(es) => lemma_get_view(es@, key@),
            _ => {},
        }
    }
    r
}

/// The entries of `v[key]` when it is an object.
fn object_member_exec<'a>(v: &'a JsonValue, key: &str) -> (r: Option<&'a Vec<(String, JsonValue)>>)
    ensures
        match r {
            Some(es) => object_member(v@, key@) == Some(json_entries_view(es@)),
            None => object_member(v@, key@) is None,
        },
{
    match member(v, key) {
        Some(JsonValue::Object(es)) => Some(es),
        _ => None,
    }
}

/// Stores under `merged[kw][key]` the merge of each entry of `overlay[kw]`
/// whose key `base[kw]` also holds, when both are objects.
fn merge_keyword(merged: &mut JsonValue, base: &JsonValue, overlay: &JsonValue, kw: &str)
    ensures
        final(merged)@ == match keyword_members(base@, overlay@, kw@) {
            Some((l, r)) => merge_member_entries(old(merged)@, kw@, l, r),
            None => old(merged)@,
        },
    decreases view_height(overlay@), 0int,
{
    let left = match object_member_exec(base, kw) {
        Some(l) => l,
        None => return ,
    };
    let right = match object_member_exec(overlay, kw) {
        Some(r) => r,
        None => return ,
    };
    let ghost lv = json_entries_view(left@);
    let ghost rv = json_entries_view(right@);
    proof {
        lemma_entries_view(right@);
        lemma_object_member_height(overlay@, kw@);
    }
    let mut i: usize = 0;
    while i < right.len()
        invariant
            0 <= i <= right@.len(),
            lv == json_entries_view(left@),
            rv == json_entries_view(right@),
            rv.len() == right@.len(),
            forall|k: int| 0 <= k < right@.len() ==> #[trigger] rv[k] == (right@[k].0@, right@[k].1@),
            view_height(JsonView::Object(rv)) < view_height(overlay@),
            merged@ == merge_member_entries(old(merged)@, kw@, lv, rv.take(i as int)),
        decreases right@.len() - i,
    {
        proof {
            assert(rv.take(i + 1).drop_last() =~= rv.take(i as int));
            assert(rv.take(i + 1).last() == rv[i as int]);
            lemma_entry_height(rv, i as int);
        }
        let key = right[i].0.as_str();
        match entries_lookup(left, key) {
            Some(existing) => {
                let x = merged_all_of(existing, &right[i].1);
                let mut inner = match member(merged, kw) {
                    Some(m) => copy_json(m),
                    None => JsonValue::Null,
                };
                set_member_exec(&mut inner, key, x);
                set_member_exec(merged, kw, inner);
            },
            None => {},
        }
        i += 1;
    }
    proof {
        assert(rv.take(right@.len() as int) =~= rv);
    }
}

/// The merge of two `allOf` members: `overlay` merged over `base`, then
/// `enum` narrowed to the values both admit, and the properties, pattern
/// properties and definitions both declare merged the same way.
pub fn merged_all_of(base: &JsonValue, overlay: &JsonValue) -> (r: JsonValue)
    ensures
        r@ == spec_merged_all_of(base@, overlay@),
    decreases view_height(overlay@), 1int,
{
    let mut merged = merged_over(base, overlay);
    let left = match member(base, "enum") {
        Some(JsonValue::Array(l)) => Some(l),
        _ => None,
    };
    let right = match member(overlay, "enum") {
        Some(JsonValue::Array(r)) => Some(r),
        _ => None,
    };
    match (left, right) {
        (Some(l), Some(r)) => {
            let inter = intersect_enum(l, r);
            set_member_exec(&mut merged, "enum", JsonValue::Array(inter));
        },
        _ => {},
    }
    merge_keyword(&mut merged, base, overlay, "properties");
    merge_keyword(&mut merged, base, overlay, "patternProperties");
    merge_keyword(&mut merged, base, overlay, "$defs");
    merge_keyword(&mut merged, base, overlay, "definitions");
    merged
}

proof fn lemma_merge_entries_get(bm: Seq<(Seq<char>, JsonView)>, om: Seq<(Seq<char>, JsonView)>, k: Seq<char>)
    requires
        keys_distinct(om),
    ensures
        view_get(merge_entries(bm, om), k) == match view_get(om, k) {
            Some(v) => Some(merged_value(view_get(bm, k), k, v)),
            None => view_get(bm, k),
        },
    decreases om.len(),
{
    if om.len() > 0 {
        let init = om.drop_last();
        let last = om.last();
        assert(keys_distinct(init)) by {
            assert forall|i: int, j: int| 0 <= i < j < init.len() implies #[trigger] init[i].0
                != #[trigger] init[j].0 by {
                assert(init[i] == om[i] && init[j] == om[j]);
            }
        }
        assert(init.push(last) =~= om);
        lemma_merge_entries_get(bm, init, k);
        lemma_merge_entries_get(bm, init, last.0);
        assert forall|i: int| 0 <= i < init.len() implies #[trigger] init[i].0 != last.0 by {
            assert(init[i] == om[i]);
            assert(om[i].0 != om[om.len() - 1].0);
        }
        lemma_view_get_absent(init, last.0);
        lemma_view_get_push(init, last, k);
        let prev = merge_entries(bm, init);
        lemma_view_get_insert(prev, last.0, merged_value(view_get(prev, last.0), last.0, last.1), k);
    }
}

/// Merging an overlay object over a base object keeps every key of the
/// base the overlay does not write, takes every key only the overlay writes,
/// and where both write a key holds the two merged: a `required` list gains
/// the overlay's items, `const` and `default` are the overlay's, and any
/// other keyword is merged the same way.
pub proof fn merged_over_reads(base: JsonView, overlay: JsonView, k: Seq<char>)
    requires
        base is Object,
        overlay is Object,
        keys_distinct(overlay->Object_0),
    ensures
        view_index(spec_merged_over(base, overlay), k) == match view_get(overlay->Object_0, k) {
            Some(v) => merged_value(view_get(base->Object_0, k), k, v),
            None => view_index(base, k),
        },
{
    lemma_merge_entries_get(base->Object_0, overlay->Object_0, k);
}

/// Merged `required` lists form a union: the base's names stay first and in
/// order, every name of the overlay is held, and nothing else is added.
pub proof fn required_lists_form_a_union(u: Seq<JsonView>, items: Seq<JsonView>)
    ensures
        u.is_prefix_of(union_items(u, items)),
        forall|i: int| 0 <= i < items.len() ==> view_contains(union_items(u, items), #[trigger] items[i]),
        forall|j: int|
            u.len() <= j < union_items(u, items).len() ==> view_contains(items, #[trigger] union_items(u, items)[j]),
    decreases items.len(),
{
    if items.len() > 0 {
        let prev = items.drop_last();
        let last = items.last();
        required_lists_form_a_union(u, prev);
        let p = union_items(u, prev);
        let r = union_items(u, items);
        lemma_view_eq_reflexive(last);
        assert forall|i: int| 0 <= i < items.len() implies view_contains(r, #[trigger] items[i]) by {
            if i < items.len() - 1 {
                assert(items[i] == prev[i]);
                assert(view_contains(p, prev[i]));
                let w = choose|w: int| 0 <= w < p.len() && view_eq(#[trigger] p[w], prev[i]);
                if !view_contains(p, last) {
                    assert(r[w] == p[w]);
                }
            } else if !view_contains(p, last) {
                assert(r[p.len() as int] == last);
            }
        }
        assert forall|j: int| u.len() <= j < r.len() implies view_contains(items, #[trigger] r[j]) by {
            if j < p.len() {
                assert(r[j] == p[j]);
                assert(view_contains(prev, p[j]));
                let w = choose|w: int| 0 <= w < prev.len() && view_eq(#[trigger] prev[w], p[j]);
                assert(items[w] == prev[w]);
            } else {
                assert(r[j] == last);
                assert(items[items.len() - 1] == last);
            }
        }
    }
}

/// Whether every object within `v`, `v` itself included, has each key
/// once, as a parsed JSON document has.
pub open spec fn objects_have_distinct_keys(v: JsonView) -> bool
    decreases v,
{
    match v {
        JsonView::Object(es) => keys_distinct(es) && forall|i: int|
            0 <= i < es.len() ==> objects_have_distinct_keys(#[trigger] es[i].1),
        JsonView::Array(xs) => forall|i: int| 0 <= i < xs.len() ==> objects_have_distinct_keys(#[trigger] xs[i]),
        _ => true,
    }
}

/// Merging where either side is not an object gives the overlay.
pub proof fn merging_with_a_non_object_gives_the_overlay(base: JsonView, overlay: JsonView)
    requires
        !(base is Object) || !(overlay is Object),
    ensures
        spec_merged_over(base, overlay) == overlay,
{
}

/// The empty object merged over an object leaves it as it is.
pub proof fn merging_the_empty_object_keeps_the_base(base: JsonView)
    requires
        base is Object,
    ensures
        spec_merged_over(base, JsonView::Object(Seq::empty())) == base,
{
}

/// An object merged over the empty object is that object.
pub proof fn merging_over_the_empty_object_gives_the_overlay(overlay: JsonView)
    requires
        overlay is Object,
        keys_distinct(overlay->Object_0),
    ensures
        spec_merged_over(JsonView::Object(Seq::empty()), overlay) == overlay,
{
    lemma_merge_into_empty(overlay->Object_0);
}

proof fn lemma_insert_absent(es: Seq<(Seq<char>, JsonView)>, key: Seq<char>, value: JsonView)
    requires
        forall|i: int| 0 <= i < es.len() ==> #[trigger] es[i].0 != key,
    ensures
        view_insert(es, key, value) == es.push((key, value)),
    decreases es.len(),
{
    if es.len() > 0 {
        assert forall|i: int| 0 <= i < es.drop_first().len() implies #[trigger] es.drop_first()[i].0 != key by {
            assert(es.drop_first()[i] == es[i + 1]);
        }
        lemma_insert_absent(es.drop_first(), key, value);
        assert(es[0].0 != key);
        assert(seq![es[0]] + es.drop_first().push((key, value)) =~= es.push((key, value)));
    } else {
        assert(seq![(key, value)] =~= es.push((key, value)));
    }
}

proof fn lemma_merge_into_empty(om: Seq<(Seq<char>, JsonView)>)
    requires
        keys_distinct(om),
    ensures
        merge_entries(Seq::empty(), om) == om,
    decreases om.len(),
{
    if om.len() > 0 {
        let init = om.drop_last();
        let last = om.last();
        assert forall|i: int, j: int| 0 <= i < j < init.len() implies #[trigger] init[i].0 != #[trigger] init[j].0 by {
            assert(init[i] == om[i]);
            assert(init[j] == om[j]);
        }
        lemma_merge_into_empty(init);
        assert forall|i: int| 0 <= i < init.len() implies #[trigger] init[i].0 != last.0 by {
            assert(init[i] == om[i]);
            assert(om[i].0 != om[om.len() - 1].0);
        }
        lemma_view_get_absent(init, last.0);
        lemma_insert_absent(init, last.0, last.1);
        assert(merge_entries(Seq::empty(), om) == view_insert(
            merge_entries(Seq::empty(), init),
            last.0,
            merged_value(view_get(merge_entries(Seq::empty(), init), last.0), last.0, last.1),
        ));
        assert(merged_value(None, last.0, last.1) == last.1);
        assert(init.push(last) =~= om);
        assert(init.push((last.0, last.1)) == om);
    } else {
        assert(om =~= Seq::<(Seq<char>, JsonView)>::empty());
    }
}

proof fn lemma_union_of_held_items(u: Seq<JsonView>, items: Seq<JsonView>)
    requires
        forall|i: int| 0 <= i < items.len() ==> view_contains(u, #[trigger] items[i]),
    ensures
        union_items(u, items) == u,
    decreases items.len(),
{
    if items.len() > 0 {
        assert forall|i: int| 0 <= i < items.drop_last().len() implies view_contains(u, #[trigger] items.drop_last()[i]) by {
            assert(items.drop_last()[i] == items[i]);
        }
        lemma_union_of_held_items(u, items.drop_last());
        assert(view_contains(u, items[items.len() - 1]));
    }
}

proof fn lemma_insert_at_own_entry(es: Seq<(Seq<char>, JsonView)>, n: int)
    requires
        keys_distinct(es),
        0 <= n < es.len(),
    ensures
        view_get(es, es[n].0) == Some(es[n].1),
        view_insert(es, es[n].0, es[n].1) == es,
    decreases es.len(),
{
    if n == 0 {
        assert(es.update(0, es[0]) =~= es);
    } else {
        let rest = es.drop_first();
        assert(es[0].0 != es[n].0);
        assert forall|i: int, j: int| 0 <= i < j < rest.len() implies #[trigger] rest[i].0 != #[trigger] rest[j].0 by {
            assert(rest[i] == es[i + 1]);
            assert(rest[j] == es[j + 1]);
        }
        assert(rest[n - 1] == es[n]);
        lemma_insert_at_own_entry(rest, n - 1);
        assert(seq![es[0]] + rest =~= es);
    }
}

/// Merging a value over itself gives it back, wherever every object in it
/// has each key once.
pub proof fn merging_a_value_over_itself_keeps_it(v: JsonView)
    requires
        objects_have_distinct_keys(v),
    ensures
        spec_merged_over(v, v) == v,
    decreases v, 1int, 0int,
{
    if let JsonView::Object(es) = v {
        lemma_merge_self_entries(v, es.len() as int);
        assert(es.take(es.len() as int) =~= es);
    }
}

proof fn lemma_merge_self_entries(v: JsonView, n: int)
    requires
        v is Object,
        objects_have_distinct_keys(v),
        0 <= n <= v->Object_0.len(),
    ensures
        merge_entries(v->Object_0, v->Object_0.take(n)) == v->Object_0,
    decreases v, 0int, n,
{
    let es = v->Object_0;
    if n > 0 {
        lemma_merge_self_entries(v, n - 1);
        assert(es.take(n).drop_last() =~= es.take(n - 1));
        assert(es.take(n).last() == es[n - 1]);
        let key = es[n - 1].0;
        let value = es[n - 1].1;
        lemma_insert_at_own_entry(es, n - 1);
        assert(objects_have_distinct_keys(es[n - 1].1));
        if key == "required"@ && value is Array {
            let xs = value->Array_0;
            assert forall|i: int| 0 <= i < xs.len() implies view_contains(xs, #[trigger] xs[i]) by {
                lemma_view_eq_reflexive(xs[i]);
            }
            lemma_union_of_held_items(xs, xs);
        } else if key != "const"@ && key != "default"@ {
            assert(decreases_to!(v => v->Object_0[n - 1].1));
            merging_a_value_over_itself_keeps_it(value);
        }
        assert(merged_value(view_get(es, key), key, value) == value);
    } else {
        assert(es.take(0) =~= Seq::<(Seq<char>, JsonView)>::empty());
    }
}


/// The string a view holds, if it is one.
pub open spec fn view_str(v: JsonView) -> Option<Seq<char>> {
    match v {
        JsonView::String(s) => Some(s),
        _ => None,
    }
}

/// The base a schema object establishes for what is written inside it: its
/// `$id` resolved against the base in force, without the fragment.
pub open spec fn spec_rebase(base: Seq<char>, schema: JsonView) -> Option<Seq<char>> {
    match view_str(view_index(schema, "$id"@)) {
        Some(id) => match url_join(base, id) {
            Some(u) => url_without_fragment(u),
            None => None,
        },
        None => None,
    }
}

/// The string member `key` of a value, if it is one.
pub(crate) fn str_member<'a>(v: &'a JsonValue, key: &str) -> (r: Option<&'a str>)
    ensures
        match r {
            Some(s) => view_str(view_index(v@, key@)) == Some(s@),
            None => view_str(view_index(v@, key@)) is None,
        },
{
    match member(v, key) {
        Some(JsonValue::String(s)) => Some(s.as_str()),
        _ => None,
    }
}

/// The base a schema object establishes for everything written inside it.
///
/// `$id` is a URI reference resolved against the base in force where it
/// appears; its fragment names the object rather than a document, so it is
/// dropped. Draft 4's `id` is not read: it stopped being a keyword in draft 6.
pub fn rebase(base: &str, schema: &JsonValue) -> (r: Option<String>)
    ensures
        opt_chars(r) == spec_rebase(base@, schema@),
{
    let id = match str_member(schema, "$id") {
        Some(id) => id,
        None => return None,
    };
    match join_url(base, id) {
        Some(u) => strip_fragment(u.as_str()),
        None => None,
    }
}

/// Keywords whose string value is a reference.
pub open spec fn is_ref_keyword(k: Seq<char>) -> bool {
    k == "$ref"@ || k == "$dynamicRef"@ || k == "$recursiveRef"@
}

/// Keywords whose value is instance data, never a schema.
pub open spec fn is_literal_keyword(k: Seq<char>) -> bool {
    k == "enum"@ || k == "const"@ || k == "default"@ || k == "examples"@
}

/// `schema` with every reference made absolute against `base`; a nested
/// `$id` re-bases what lies beneath it, and instance data is left alone.
pub open spec fn spec_absolute_refs(schema: JsonView, base: Seq<char>) -> JsonView
    decreases schema, 1int,
{
    match schema {
        JsonView::Object(es) => {
            let absolute_id = match view_str(view_index(schema, "$id"@)) {
                Some(id) => url_join(base, id),
                None => None,
            };
            let inner = match spec_rebase(base, schema) {
                Some(b) => b,
                None => base,
            };
            JsonView::Object(absolute_entries(es, inner, absolute_id))
        },
        JsonView::Array(xs) => JsonView::Array(absolute_items(xs, base)),
        _ => schema,
    }
}

/// The entries of an object with their references made absolute.
pub open spec fn absolute_entries(
    es: Seq<(Seq<char>, JsonView)>,
    base: Seq<char>,
    absolute_id: Option<Seq<char>>,
) -> Seq<(Seq<char>, JsonView)>
    decreases es, 0int,
{
    if es.len() == 0 {
        Seq::empty()
    } else {
        absolute_entries(es.drop_last(), base, absolute_id).push(
            (es.last().0, absolute_entry(es.last().0, es.last().1, base, absolute_id)),
        )
    }
}

/// One member of an object with its references made absolute: a reference
/// string is joined to `base` (kept as written when that fails), a
/// non-fragment `$id` becomes `absolute_id`, instance data is kept, and
/// anything else is walked.
pub open spec fn absolute_entry(
    key: Seq<char>,
    value: JsonView,
    base: Seq<char>,
    absolute_id: Option<Seq<char>>,
) -> JsonView
    decreases value, 2int,
{
    if is_ref_keyword(key) && value is String {
        match url_join(base, value->String_0) {
            Some(u) => JsonView::String(u),
            None => value,
        }
    } else if key == "$id"@ && value is String {
        let id = value->String_0;
        if id.len() > 0 && id[0] == '#' {
            value
        } else {
            match absolute_id {
                Some(a) => JsonView::String(a),
                None => value,
            }
        }
    } else if is_literal_keyword(key) {
        value
    } else {
        spec_absolute_refs(value, base)
    }
}

/// The items of an array with their references made absolute.
pub open spec fn absolute_items(xs: Seq<JsonView>, base: Seq<char>) -> Seq<JsonView>
    decreases xs, 0int,
{
    if xs.len() == 0 {
        Seq::empty()
    } else {
        absolute_items(xs.drop_last(), base).push(spec_absolute_refs(xs.last(), base))
    }
}

fn is_ref_key(k: &str) -> (r: bool)
    ensures
        r == is_ref_keyword(k@),
{
    str_equals(k, "$ref") || str_equals(k, "$dynamicRef") || str_equals(k, "$recursiveRef")
}

fn is_literal_key(k: &str) -> (r: bool)
    ensures
        r == is_literal_keyword(k@),
{
    str_equals(k, "enum") || str_equals(k, "const") || str_equals(k, "default") || str_equals(
        k,
        "examples",
    )
}

/// A copy of `schema` whose every `$ref`, `$dynamicRef` and `$recursiveRef`
/// string is absolute against `base`.
///
/// A subschema evaluated outside its document keeps its `#/...` pointers and
/// loses the document they name; this walk fixes that. It covers the
/// subschema's own JSON and follows nothing, so it terminates however cyclic
/// the schema is. A nested `$id` re-bases the references beneath it, and a
/// reference that cannot be joined is left as written.
pub fn absolute_refs(schema: &JsonValue, base: &str) -> (r: JsonValue)
    ensures
        r@ == spec_absolute_refs(schema@, base@),
    decreases schema,
{
    match schema {
        JsonValue::Object(es) => {
            let absolute_id = match str_member(schema, "$id") {
                Some(id) => join_url(base, id),
                None => None,
            };
            let rebased = rebase(base, schema);
            let inner: &str = match &rebased {
                Some(b) => b.as_str(),
                None => base,
            };
            let ghost ev = json_entries_view(es@);
            let ghost aid = opt_chars(absolute_id);
            proof {
                lemma_entries_view(es@);
            }
            let mut out: Vec<(String, JsonValue)> = Vec::new();
            let mut i: usize = 0;
            while i < es.len()
                invariant
                    0 <= i <= es@.len(),
                    *schema == JsonValue::Object(*es),
                    ev == json_entries_view(es@),
                    ev.len() == es@.len(),
                    forall|k: int| 0 <= k < es@.len() ==> #[trigger] ev[k] == (es@[k].0@, es@[k].1@),
                    aid == opt_chars(absolute_id),
                    json_entries_view(out@) == absolute_entries(ev.take(i as int), inner@, aid),
                decreases es@.len() - i,
            {
                proof {
                    assert(ev.take(i + 1).drop_last() =~= ev.take(i as int));
                    assert(ev.take(i + 1).last() == ev[i as int]);
                }
                let key = es[i].0.as_str();
                let value = &es[i].1;
                let v = if is_ref_key(key) && value.as_str().is_some() {
                    match value {
                        JsonValue::String(reference) => match join_url(inner, reference.as_str()) {
                            Some(u) => JsonValue::String(u),
                            None => copy_json(value),
                        },
                        _ => copy_json(value),
                    }
                } else if str_equals(key, "$id") && value.as_str().is_some() {
                    match value {
                        JsonValue::String(id) => {
                            if id.as_str().unicode_len() > 0 && id.as_str().get_char(0) == '#' {
                                copy_json(value)
                            } else {
                                match &absolute_id {
                                    Some(a) => JsonValue::String(a.clone()),
                                    None => copy_json(value),
                                }
                            }
                        },
                        _ => copy_json(value),
                    }
                } else if is_literal_key(key) {
                    copy_json(value)
                } else {
                    assert(decreases_to!(*schema => (*schema)->Object_0@[i as int].1));
                    absolute_refs(value, inner)
                };
                assert(v@ == absolute_entry(ev[i as int].0, ev[i as int].1, inner@, aid));
                let k = es[i].0.clone();
                let ghost before = out@;
                out.push((k, v));
                proof {
                    lemma_entries_view(out@);
                    lemma_entries_view(before);
                    assert(json_entries_view(out@) =~= json_entries_view(before).push(
                        (ev[i as int].0, v@),
                    ));
                }
                i += 1;
            }
            proof {
                assert(ev.take(es@.len() as int) =~= ev);
            }
            JsonValue::Object(out)
        },
        JsonValue::Array(xs) => {
            let ghost xv = json_items_view(xs@);
            proof {
                lemma_items_view(xs@);
            }
            let mut out: Vec<JsonValue> = Vec::new();
            let mut i: usize = 0;
            while i < xs.len()
                invariant
                    0 <= i <= xs@.len(),
                    *schema == JsonValue::Array(*xs),
                    xv == json_items_view(xs@),
                    xv.len() == xs@.len(),
                    forall|k: int| 0 <= k < xs@.len() ==> #[trigger] xv[k] == xs@[k]@,
                    json_items_view(out@) == absolute_items(xv.take(i as int), base@),
                decreases xs@.len() - i,
            {
                proof {
                    assert(xv.take(i + 1).drop_last() =~= xv.take(i as int));
                    assert(xv.take(i + 1).last() == xv[i as int]);
                }
                assert(decreases_to!(*schema => (*schema)->Array_0@[i as int]));
                let v = absolute_refs(&xs[i], base);
                let ghost before = out@;
                out.push(v);
                proof {
                    lemma_items_view(out@);
                    lemma_items_view(before);
                    assert(json_items_view(out@) =~= json_items_view(before).push(
                        spec_absolute_refs(xv[i as int], base@),
                    ));
                }
                i += 1;
            }
            proof {
                assert(xv.take(xs@.len() as int) =~= xv);
            }
            JsonValue::Array(out)
        },
        _ => copy_json(schema),
    }
}

/// A JSON Schema draft a validator can be built for.
#[derive(Clone, Copy, Debug, PartialEq, Eq, Structural)]
pub enum SchemaDraft {
    Draft4,
    Draft6,
    Draft7,
    Draft201909,
    Draft202012,
}

/// How a schema's `$schema` value maps onto a draft that can be validated
/// against.
#[derive(Debug, PartialEq, Eq)]
pub enum DeclaredDraft {
    Supported(SchemaDraft),
    /// A meta-schema recognized as one but with no validator for it; carries
    /// the declared URI so a warning can name it.
    Unsupported(String),
    Unrecognized,
}

/// A `DeclaredDraft` as the specifications read it.
pub enum DraftDeclaration {
    Supported(SchemaDraft),
    Unsupported(Seq<char>),
    Unrecognized,
}

impl View for DeclaredDraft {
    type V = DraftDeclaration;

    open spec fn view(&self) -> DraftDeclaration {
        match self {
            DeclaredDraft::Supported(d) => DraftDeclaration::Supported(*d),
            DeclaredDraft::Unsupported(s) => DraftDeclaration::Unsupported(s@),
            DeclaredDraft::Unrecognized => DraftDeclaration::Unrecognized,
        }
    }
}

/// The draft whose meta-schema lives at `path` on json-schema.org.
pub open spec fn draft_at_path(path: Seq<char>) -> Option<SchemaDraft> {
    if path == "/draft-04/schema"@ {
        Some(SchemaDraft::Draft4)
    } else if path == "/draft-06/schema"@ {
        Some(SchemaDraft::Draft6)
    } else if path == "/draft-07/schema"@ {
        Some(SchemaDraft::Draft7)
    } else if path == "/draft/2019-09/schema"@ {
        Some(SchemaDraft::Draft201909)
    } else if path == "/draft/2020-12/schema"@ {
        Some(SchemaDraft::Draft202012)
    } else {
        None
    }
}

/// The classification of a declared meta-schema URI from its host and path:
/// json-schema.org names a draft by its path, any other host or text that is
/// no URL names none.
pub open spec fn spec_meta_schema_draft(
    declared: Seq<char>,
    parts: Option<(Option<Seq<char>>, Seq<char>)>,
) -> DraftDeclaration {
    match parts {
        None => DraftDeclaration::Unrecognized,
        Some((host, path)) => if host != Some("json-schema.org"@) {
            DraftDeclaration::Unrecognized
        } else {
            match draft_at_path(path) {
                Some(d) => DraftDeclaration::Supported(d),
                None => DraftDeclaration::Unsupported(declared),
            }
        },
    }
}

/// `s` without one trailing `#`.
pub open spec fn without_trailing_hash(s: Seq<char>) -> Seq<char> {
    if s.len() > 0 && s.last() == '#' {
        s.drop_last()
    } else {
        s
    }
}

/// The draft a schema resource declares through `$schema`.
pub open spec fn spec_declared_draft(schema: JsonView) -> DraftDeclaration {
    match view_str(view_index(schema, "$schema"@)) {
        None => DraftDeclaration::Unrecognized,
        Some(declared) => {
            let normalized = without_trailing_hash(declared);
            spec_meta_schema_draft(normalized, url_host_and_path(normalized))
        },
    }
}

/// A host and path as the specifications read them.
pub open spec fn parts_view(parts: Option<(Option<String>, String)>) -> Option<(Option<Seq<char>>, Seq<char>)> {
    match parts {
        Some((h, p)) => Some((opt_chars(h), p@)),
        None => None,
    }
}

/// Classifies a declared meta-schema URI by the host and path it parsed to.
/// Scheme, case, query and fragment do not matter.
pub fn classify_meta_schema(declared: &str, parts: Option<(Option<String>, String)>) -> (r: DeclaredDraft)
    ensures
        r@ == spec_meta_schema_draft(declared@, parts_view(parts)),
{
    let (host, path) = match parts {
        Some(p) => p,
        None => return DeclaredDraft::Unrecognized,
    };
    let on_json_schema_org = match &host {
        Some(h) => str_equals(h.as_str(), "json-schema.org"),
        None => false,
    };
    if !on_json_schema_org {
        return DeclaredDraft::Unrecognized;
    }
    let p = path.as_str();
    if str_equals(p, "/draft-04/schema") {
        DeclaredDraft::Supported(SchemaDraft::Draft4)
    } else if str_equals(p, "/draft-06/schema") {
        DeclaredDraft::Supported(SchemaDraft::Draft6)
    } else if str_equals(p, "/draft-07/schema") {
        DeclaredDraft::Supported(SchemaDraft::Draft7)
    } else if str_equals(p, "/draft/2019-09/schema") {
        DeclaredDraft::Supported(SchemaDraft::Draft201909)
    } else if str_equals(p, "/draft/2020-12/schema") {
        DeclaredDraft::Supported(SchemaDraft::Draft202012)
    } else {
        DeclaredDraft::Unsupported(declared.to_owned())
    }
}

/// Classifies the draft declared by a schema resource.
///
/// Classification goes by host and path, so scheme, case, query and
/// fragment do not matter; the trailing `#` the canonical form carries up to
/// draft-07 is stripped so the reported URI stays tidy.
pub fn declared_draft(schema: &JsonValue) -> (r: DeclaredDraft)
    ensures
        r@ == spec_declared_draft(schema@),
{
    let declared = match str_member(schema, "$schema") {
        Some(d) => d,
        None => return DeclaredDraft::Unrecognized,
    };
    let n = declared.unicode_len();
    let normalized = if n > 0 && declared.get_char(n - 1) == '#' {
        declared.substring_char(0, n - 1)
    } else {
        declared
    };
    assert(normalized@ == without_trailing_hash(declared@));
    let parts = parse_host_and_path(normalized);
    classify_meta_schema(normalized, parts)
}

/// One step of a path into a TOML document: a key of a table or a position
/// in an array.
#[derive(Debug)]
pub enum KeyOrIndex {
    Key(String),
    Index(usize),
}

/// The part of a view one step selects; an absent key or position, or a
/// step into a value of the wrong kind, selects `Null`.
pub open spec fn step_into(v: JsonView, k: KeyOrIndex) -> JsonView {
    match k {
        KeyOrIndex::Key(key) => view_index(v, key@),
        KeyOrIndex::Index(i) => match v {
            JsonView::Array(xs) => if i < xs.len() {
                xs[i as int]
            } else {
                JsonView::Null
            },
            _ => JsonView::Null,
        },
    }
}

/// The part of the document a path selects.
pub open spec fn spec_instance_at(v: JsonView, keys: Seq<KeyOrIndex>) -> JsonView
    decreases keys.len(),
{
    if keys.len() == 0 {
        v
    } else {
        spec_instance_at(step_into(v, keys[0]), keys.drop_first())
    }
}

/// The part of the document a schema at `keys` applies to.
///
/// A missing key or an out-of-range index yields `Null`, which is how an
/// absent position reports itself.
pub fn instance_at<'v>(value: &'v JsonValue, keys: &Vec<KeyOrIndex>) -> (r: &'v JsonValue)
    ensures
        r@ == spec_instance_at(value@, keys@),
{
    let mut instance: &'v JsonValue = value;
    let mut i: usize = 0;
    assert(keys@.skip(0) =~= keys@);
    while i < keys.len()
        invariant
            0 <= i <= keys@.len(),
            spec_instance_at(value@, keys@) == spec_instance_at(instance@, keys@.skip(i as int)),
        decreases keys@.len() - i,
    {
        assert(keys@.skip(i as int).drop_first() =~= keys@.skip(i + 1));
        assert(keys@.skip(i as int)[0] == keys@[i as int]);
        let next: &'v JsonValue = match &keys[i] {
            KeyOrIndex::Key(k) => match member(instance, k.as_str()) {
                Some(m) => m,
                None => &JsonValue::Null,
            },
            KeyOrIndex::Index(idx) => match instance {
                JsonValue::Array(xs) => {
                    proof {
                        lemma_items_view(xs@);
                    }
                    if *idx < xs.len() {
                        &xs[*idx]
                    } else {
                        &JsonValue::Null
                    }
                },
                _ => &JsonValue::Null,
            },
        };
        assert(next@ == step_into(instance@, keys@[i as int]));
        instance = next;
        i += 1;
    }
    instance
}

/// Whether a schema declares draft 2019-09 or 2020-12, whose `$schema` a
/// detached condition must carry to be read the same way.
pub open spec fn declares_recent_draft(schema: JsonView) -> bool {
    spec_declared_draft(schema) == DraftDeclaration::Supported(SchemaDraft::Draft201909)
        || spec_declared_draft(schema) == DraftDeclaration::Supported(SchemaDraft::Draft202012)
}

/// A condition (`if`, a `oneOf` branch, `contains`) made ready to be
/// compiled on its own: its references absolute against `base`, its `$id`
/// removed so it cannot shadow the document its pointers name, and, under a
/// root that declares draft 2019-09 or 2020-12, the root's `$schema` unless
/// it declares its own.
pub open spec fn spec_detached_condition(condition: JsonView, base: Seq<char>, root: Option<JsonView>) -> JsonView {
    match spec_absolute_refs(condition, base) {
        JsonView::Object(es) => {
            let without_id = view_remove(es, "$id"@);
            match root {
                Some(r) => if declares_recent_draft(r) && view_get(without_id, "$schema"@) is None {
                    JsonView::Object(view_insert(without_id, "$schema"@, view_index(r, "$schema"@)))
                } else {
                    JsonView::Object(without_id)
                },
                None => JsonView::Object(without_id),
            }
        },
        c => c,
    }
}

/// Prepares a condition to be compiled on its own, detached from the
/// document it was written in; `root` is the cached document at `base`, if
/// any.
pub fn detached_condition(condition: &JsonValue, base: &str, root: Option<&JsonValue>) -> (r: JsonValue)
    ensures
        r@ == spec_detached_condition(
            condition@,
            base@,
            match root {
                Some(v) => Some(v@),
                None => None,
            },
        ),
{
    let mut c = absolute_refs(condition, base);
    match &mut c {
        JsonValue::Object(es) => {
            entries_remove(es, "$id");
            match root {
                Some(r) => {
                    let recent = match declared_draft(r) {
                        DeclaredDraft::Supported(SchemaDraft::Draft201909) => true,
                        DeclaredDraft::Supported(SchemaDraft::Draft202012) => true,
                        _ => false,
                    };
                    if recent && !entries_contain(es, "$schema") {
                        let declared = match member(r, "$schema") {
                            Some(m) => copy_json(m),
                            None => JsonValue::Null,
                        };
                        entries_insert(es, "$schema".to_owned(), declared);
                    }
                },
                None => {},
            }
        },
        _ => {},
    }
    c
}

/// The branch `if` selects, as far as `condition` (whether the instance
/// satisfies `if`, `None` when that cannot be decided) tells; both when it
/// cannot be decided. Absent branches are left out.
pub open spec fn selected_branches(schema: JsonView, condition: Option<bool>) -> Seq<JsonView> {
    let then_branch = view_index(schema, "then"@);
    let else_branch = view_index(schema, "else"@);
    if !(view_index(schema, "if"@) is Null) && (!(then_branch is Null) || !(else_branch is Null)) {
        match condition {
            Some(true) => non_null(then_branch),
            Some(false) => non_null(else_branch),
            None => non_null(then_branch) + non_null(else_branch),
        }
    } else {
        Seq::empty()
    }
}

/// `v` alone, or nothing when it is `Null`.
pub open spec fn non_null(v: JsonView) -> Seq<JsonView> {
    if v is Null {
        Seq::empty()
    } else {
        seq![v]
    }
}

/// Whether the instance is an object with a member `key`.
pub open spec fn instance_has(instance: JsonView, key: Seq<char>) -> bool {
    match instance {
        JsonView::Object(es) => view_get(es, key) is Some,
        _ => false,
    }
}

/// The dependent schemas among `es` that apply: each one that is an object,
/// when the instance is absent or has the key it depends on.
pub open spec fn dependents(es: Seq<(Seq<char>, JsonView)>, instance: JsonView) -> Seq<JsonView>
    decreases es.len(),
{
    if es.len() == 0 {
        Seq::empty()
    } else {
        let p = dependents(es.drop_last(), instance);
        let dependent = es.last().1;
        if dependent is Object && (instance is Null || instance_has(instance, es.last().0)) {
            p.push(dependent)
        } else {
            p
        }
    }
}

/// The dependent schemas under `kw` that apply; an array dependency names
/// required keys rather than a schema and is left out.
pub open spec fn keyword_dependents(schema: JsonView, kw: Seq<char>, instance: JsonView) -> Seq<JsonView> {
    match view_index(schema, kw) {
        JsonView::Object(es) => dependents(es, instance),
        _ => Seq::empty(),
    }
}

/// The subschemas that apply to the same instance as `schema` itself and
/// consume no path: the branch `if` selects, then the schemas its present
/// keys depend on under `dependencies` and `dependentSchemas`.
pub open spec fn spec_applicable_conditionals(schema: JsonView, condition: Option<bool>, instance: JsonView) -> Seq<
    JsonView,
> {
    selected_branches(schema, condition) + keyword_dependents(schema, "dependencies"@, instance)
        + keyword_dependents(schema, "dependentSchemas"@, instance)
}

/// Whether a schema has an `if` with a branch, so that the instance has to
/// be tested against the condition.
pub fn needs_condition(schema: &JsonValue) -> (r: bool)
    ensures
        r == (!(view_index(schema@, "if"@) is Null) && (!(view_index(schema@, "then"@) is Null) || !(
        view_index(schema@, "else"@) is Null))),
{
    let has_if = match member(schema, "if") {
        Some(v) => !v.is_null(),
        None => false,
    };
    let has_then = match member(schema, "then") {
        Some(v) => !v.is_null(),
        None => false,
    };
    let has_else = match member(schema, "else") {
        Some(v) => !v.is_null(),
        None => false,
    };
    has_if && (has_then || has_else)
}

/// Appends the applicable dependents under `kw`.
fn push_dependents<'s>(out: &mut Vec<&'s JsonValue>, schema: &'s JsonValue, kw: &str, instance: &JsonValue)
    ensures
        final(out)@.len() == old(out)@.len() + keyword_dependents(schema@, kw@, instance@).len(),
        forall|i: int| 0 <= i < old(out)@.len() ==> #[trigger] final(out)@[i] == old(out)@[i],
        forall|i: int|
            0 <= i < keyword_dependents(schema@, kw@, instance@).len()
                ==> (#[trigger] final(out)@[old(out)@.len() + i])@
                == keyword_dependents(schema@, kw@, instance@)[i],
{
    let es = match member(schema, kw) {
        Some(JsonValue::Object(es)) => es,
        _ => return ,
    };
    let ghost ev = json_entries_view(es@);
    let ghost start = out@.len();
    let ghost before = out@;
    proof {
        lemma_entries_view(es@);
    }
    let mut i: usize = 0;
    while i < es.len()
        invariant
            0 <= i <= es@.len(),
            ev == json_entries_view(es@),
            ev.len() == es@.len(),
            forall|k: int| 0 <= k < es@.len() ==> #[trigger] ev[k] == (es@[k].0@, es@[k].1@),
            start == before.len(),
            out@.len() == start + dependents(ev.take(i as int), instance@).len(),
            forall|k: int| 0 <= k < start ==> #[trigger] out@[k] == before[k],
            forall|k: int|
                0 <= k < dependents(ev.take(i as int), instance@).len() ==> (#[trigger] out@[start
                    + k])@ == dependents(ev.take(i as int), instance@)[k],
        decreases es@.len() - i,
    {
        proof {
            assert(ev.take(i + 1).drop_last() =~= ev.take(i as int));
            assert(ev.take(i + 1).last() == ev[i as int]);
        }
        let dependent = &es[i].1;
        let applies = match dependent {
            JsonValue::Object(_) => instance.is_null() || match instance {
                JsonValue::Object(ies) => entries_contain(ies, es[i].0.as_str()),
                _ => false,
            },
            _ => false,
        };
        if applies {
            out.push(dependent);
        }
        i += 1;
    }
    proof {
        assert(ev.take(es@.len() as int) =~= ev);
    }
}

/// The subschemas that apply to the same instance as `schema` itself and
/// consume no path: the `if` branch the instance selects, and the schemas
/// its present keys depend on.
///
/// `condition` is whether the instance satisfies `if`, `None` when that
/// cannot be decided; an absent instance, or an undecided condition, yields
/// every branch and every dependent schema.
pub fn applicable_conditionals<'s>(schema: &'s JsonValue, condition: Option<bool>, instance: &JsonValue) -> (r: Vec<&'s JsonValue>)
    ensures
        r@.len() == spec_applicable_conditionals(schema@, condition, instance@).len(),
        forall|i: int|
            0 <= i < r@.len() ==> (#[trigger] r@[i])@ == spec_applicable_conditionals(
                schema@,
                condition,
                instance@,
            )[i],
{
    let mut out: Vec<&'s JsonValue> = Vec::new();
    if needs_condition(schema) {
        let then_branch = member(schema, "then");
        let else_branch = member(schema, "else");
        let take_then = match condition {
            Some(c) => c,
            None => true,
        };
        let take_else = match condition {
            Some(c) => !c,
            None => true,
        };
        if take_then {
            match then_branch {
                Some(b) => if !b.is_null() {
                    out.push(b);
                },
                None => {},
            }
        }
        if take_else {
            match else_branch {
                Some(b) => if !b.is_null() {
                    out.push(b);
                },
                None => {},
            }
        }
    }
    let ghost sel = selected_branches(schema@, condition);
    assert(out@.len() == sel.len());
    assert(forall|i: int| 0 <= i < out@.len() ==> (#[trigger] out@[i])@ == sel[i]);
    push_dependents(&mut out, schema, "dependencies", instance);
    push_dependents(&mut out, schema, "dependentSchemas", instance);
    proof {
        let a = keyword_dependents(schema@, "dependencies"@, instance@);
        let b = keyword_dependents(schema@, "dependentSchemas"@, instance@);
        let all = spec_applicable_conditionals(schema@, condition, instance@);
        assert(all =~= sel + a + b);
        assert forall|i: int| 0 <= i < out@.len() implies (#[trigger] out@[i])@ == all[i] by {
            if i < sel.len() {
            } else if i < sel.len() + a.len() {
                assert(out@[sel.len() + (i - sel.len())] == out@[i]);
            } else {
                assert(out@[sel.len() + a.len() + (i - sel.len() - a.len())] == out@[i]);
            }
        }
    }
    out
}

/// The schema that describes position `idx` of an array: `prefixItems`
/// covers the leading positions, then `items` (an array of per-position
/// schemas, with `additionalItems` past its end, or one schema for every
/// position).
pub open spec fn spec_item_schema(schema: JsonView, idx: nat) -> JsonView {
    let prefix = view_index(schema, "prefixItems"@);
    let items = view_index(schema, "items"@);
    if prefix is Array && idx < prefix->Array_0.len() {
        prefix->Array_0[idx as int]
    } else if items is Array {
        if idx < items->Array_0.len() {
            items->Array_0[idx as int]
        } else {
            view_index(schema, "additionalItems"@)
        }
    } else {
        items
    }
}

/// The schema that describes position `idx` of an array: `prefixItems` and
/// `items` partition the array, the leading positions belonging to
/// `prefixItems`.
pub fn item_schema<'a>(schema: &'a JsonValue, idx: usize) -> (r: &'a JsonValue)
    ensures
        r@ == spec_item_schema(schema@, idx as nat),
{
    match member(schema, "prefixItems") {
        Some(JsonValue::Array(prefix)) => {
            proof {
                lemma_items_view(prefix@);
            }
            if idx < prefix.len() {
                return &prefix[idx];
            }
        },
        _ => {},
    }
    match member(schema, "items") {
        Some(JsonValue::Array(items)) => {
            proof {
                lemma_items_view(items@);
            }
            if idx < items.len() {
                &items[idx]
            } else {
                match member(schema, "additionalItems") {
                    Some(m) => m,
                    None => &JsonValue::Null,
                }
            }
        },
        Some(m) => m,
        None => &JsonValue::Null,
    }
}

/// How many branches the instance may satisfy: those whose condition is not
/// known to fail.
pub open spec fn possible_count(matches: Seq<Option<bool>>) -> nat
    decreases matches.len(),
{
    if matches.len() == 0 {
        0
    } else {
        possible_count(matches.drop_last()) + if matches.last() == Some(false) {
            0nat
        } else {
            1nat
        }
    }
}

/// Whether a branch the instance may satisfy evaluated the key.
pub open spec fn covered_by_possible(coverage: Seq<bool>, matches: Seq<Option<bool>>) -> bool {
    exists|i: int| 0 <= i < coverage.len() && coverage[i] && #[trigger] matches[i] != Some(false)
}

/// Whether a `oneOf` or `anyOf` evaluated the key its branches were
/// traversed for: some branch covers it, and among the branches the instance
/// may satisfy (`matches[i]`, `None` when undecided) one that covers it
/// counts, for `oneOf` only when exactly one branch may be satisfied.
pub open spec fn spec_branches_evaluated(any_of: bool, coverage: Seq<bool>, matches: Seq<Option<bool>>) -> bool {
    (exists|i: int| 0 <= i < coverage.len() && #[trigger] coverage[i]) && (any_of || possible_count(matches)
        == 1) && covered_by_possible(coverage, matches)
}

/// Whether a `oneOf` (`any_of` false) or `anyOf` (`any_of` true) evaluated
/// the key its branches were traversed for, from whether each branch covered
/// it and whether the instance satisfies each branch.
pub fn branches_evaluated(any_of: bool, coverage: &Vec<bool>, matches: &Vec<Option<bool>>) -> (r: bool)
    requires
        coverage.len() == matches.len(),
    ensures
        r == spec_branches_evaluated(any_of, coverage@, matches@),
{
    let mut any_covers = false;
    let mut i: usize = 0;
    while i < coverage.len()
        invariant
            0 <= i <= coverage@.len(),
            any_covers == exists|k: int| 0 <= k < i && #[trigger] coverage@[k],
        decreases coverage@.len() - i,
    {
        if coverage[i] {
            any_covers = true;
        }
        i += 1;
    }
    if !any_covers {
        return false;
    }
    let mut matching: usize = 0;
    let mut branch_evaluated = false;
    let mut j: usize = 0;
    while j < coverage.len()
        invariant
            0 <= j <= coverage@.len(),
            coverage@.len() == matches@.len(),
            matching == possible_count(matches@.take(j as int)),
            matching <= j,
            branch_evaluated == exists|k: int| 0 <= k < j && coverage@[k] && #[trigger] matches@[k] != Some(false),
        decreases coverage@.len() - j,
    {
        proof {
            assert(matches@.take(j + 1).drop_last() =~= matches@.take(j as int));
        }
        let possible = match matches[j] {
            Some(false) => false,
            _ => true,
        };
        if possible {
            matching += 1;
            if coverage[j] {
                branch_evaluated = true;
            }
        }
        j += 1;
    }
    proof {
        assert(matches@.take(coverage@.len() as int) =~= matches@);
    }
    if any_of || matching == 1 {
        branch_evaluated
    } else {
        false
    }
}

/// Whether a schema is offered as a child itself, rather than only through
/// its `oneOf` or `anyOf` branches: when it has neither, or declares
/// properties of its own.
pub open spec fn spec_offers_itself(schema: JsonView) -> bool {
    (view_index(schema, "oneOf"@) is Null && view_index(schema, "anyOf"@) is Null) || !(view_index(
        schema,
        "properties"@,
    ) is Null)
}

/// Whether a schema is offered as a child itself.
pub fn offers_itself(schema: &JsonValue) -> (r: bool)
    ensures
        r == spec_offers_itself(schema@),
{
    let no_one_of = match member(schema, "oneOf") {
        Some(v) => v.is_null(),
        None => true,
    };
    let no_any_of = match member(schema, "anyOf") {
        Some(v) => v.is_null(),
        None => true,
    };
    let has_properties = match member(schema, "properties") {
        Some(v) => !v.is_null(),
        None => false,
    };
    no_one_of && no_any_of || has_properties
}

/// Whether an `allOf` is composed into one schema: it is an array, budget is
/// left, and the schema has no `oneOf`, `anyOf` or `properties` of its own.
pub open spec fn spec_composable(schema: JsonView, budget: nat) -> bool {
    view_index(schema, "allOf"@) is Array && budget != 0 && view_index(schema, "oneOf"@) is Null
        && view_index(schema, "anyOf"@) is Null && view_index(schema, "properties"@) is Null
}

/// Whether an `allOf` is composed into one schema.
pub fn composable(schema: &JsonValue, budget: usize) -> (r: bool)
    ensures
        r == spec_composable(schema@, budget as nat),
{
    let is_array = match member(schema, "allOf") {
        Some(JsonValue::Array(_)) => true,
        _ => false,
    };
    let absent = |k: &str| -> (b: bool)
        ensures
            b == view_index(schema@, k@) is Null,
        {
            match member(schema, k) {
                Some(v) => v.is_null(),
                None => true,
            }
        };
    is_array && budget != 0 && absent("oneOf") && absent("anyOf") && absent("properties")
}

/// The merge of `members`, in order, starting from an empty object.
pub open spec fn fold_all_of(merged: JsonView, members: Seq<JsonView>) -> JsonView
    decreases members.len(),
{
    if members.len() == 0 {
        merged
    } else {
        spec_merged_all_of(fold_all_of(merged, members.drop_last()), members.last())
    }
}

/// Whether a schema holds any array keyword.
pub open spec fn has_array_keyword(v: JsonView) -> bool {
    !(view_index(v, "items"@) is Null) || !(view_index(v, "prefixItems"@) is Null) || !(view_index(
        v,
        "contains"@,
    ) is Null) || !(view_index(v, "additionalItems"@) is Null) || !(view_index(
        v,
        "unevaluatedItems"@,
    ) is Null)
}

/// An `allOf` composed into one schema: the resolved members merged in
/// order, then the carrier (its references made absolute against `base`,
/// without its `allOf`) merged over them. `None` when the carrier is not an
/// object, or when the result holds an array keyword, whose evaluation
/// depends on the applicator boundaries a merge erases.
pub open spec fn spec_compose_members(members: Seq<JsonView>, carrier: JsonView, base: Seq<char>) -> Option<JsonView> {
    let merged = fold_all_of(JsonView::Object(Seq::empty()), members);
    match spec_absolute_refs(carrier, base) {
        JsonView::Object(es) => {
            let composed = spec_merged_all_of(merged, JsonView::Object(view_remove(es, "allOf"@)));
            if has_array_keyword(composed) {
                None
            } else {
                Some(composed)
            }
        },
        _ => None,
    }
}

/// Composes an `allOf` into one schema from its members, each already
/// resolved, composed and made absolute, and the schema that carries it.
pub fn compose_members(members: &Vec<JsonValue>, carrier: &JsonValue, base: &str) -> (r: Option<JsonValue>)
    ensures
        match r {
            Some(v) => spec_compose_members(json_items_view(members@), carrier@, base@) == Some(v@),
            None => spec_compose_members(json_items_view(members@), carrier@, base@) is None,
        },
{
    let ghost mv = json_items_view(members@);
    proof {
        lemma_items_view(members@);
    }
    let mut merged = JsonValue::Object(Vec::new());
    proof {
        lemma_entries_view(Seq::<(String, JsonValue)>::empty());
        assert(merged@ == JsonView::Object(Seq::empty()));
    }
    let mut i: usize = 0;
    while i < members.len()
        invariant
            0 <= i <= members@.len(),
            mv == json_items_view(members@),
            mv.len() == members@.len(),
            forall|k: int| 0 <= k < members@.len() ==> #[trigger] mv[k] == members@[k]@,
            merged@ == fold_all_of(JsonView::Object(Seq::empty()), mv.take(i as int)),
        decreases members@.len() - i,
    {
        proof {
            assert(mv.take(i + 1).drop_last() =~= mv.take(i as int));
            assert(mv.take(i + 1).last() == mv[i as int]);
        }
        merged = merged_all_of(&merged, &members[i]);
        i += 1;
    }
    proof {
        assert(mv.take(members@.len() as int) =~= mv);
    }
    let mut c = absolute_refs(carrier, base);
    match &mut c {
        JsonValue::Object(es) => {
            entries_remove(es, "allOf");
        },
        _ => {
            return None;
        },
    }
    let composed = merged_all_of(&merged, &c);
    let has_array = {
        let present = |k: &str| -> (b: bool)
            ensures
                b == !(view_index(composed@, k@) is Null),
            {
                match member(&composed, k) {
                    Some(v) => !v.is_null(),
                    None => false,
                }
            };
        present("items") || present("prefixItems") || present("contains") || present(
            "additionalItems",
        ) || present("unevaluatedItems")
    };
    if has_array {
        None
    } else {
        Some(composed)
    }
}

/// The schemas of `patternProperties` entries whose pattern compiles and
/// matches `key`, in order.
pub open spec fn pattern_schemas(es: Seq<(Seq<char>, JsonView)>, key: Seq<char>) -> Seq<JsonView>
    decreases es.len(),
{
    if es.len() == 0 {
        Seq::empty()
    } else {
        let p = pattern_schemas(es.drop_last(), key);
        if regex_search(es.last().0, key) == Some(true) {
            p.push(es.last().1)
        } else {
            p
        }
    }
}

/// The schemas traversal descends into for member `key` of an instance, in
/// order, and whether some applicator evaluated the key.
///
/// It descends into `items[key]` (for arrays of tables), `properties[key]`,
/// `additionalProperties`, and every pattern property whose pattern matches
/// the key; a present property, `additionalProperties` or a matching pattern
/// evaluates the key, as may the in-place applicators already traversed.
/// `unevaluatedProperties` applies only to a key nothing evaluated.
pub open spec fn spec_key_subschemas(schema: JsonView, key: Seq<char>, evaluated_in_place: bool) -> (
    Seq<JsonView>,
    bool,
) {
    let by_items = view_index(view_index(schema, "items"@), key);
    let property = view_index(view_index(schema, "properties"@), key);
    let additional = view_index(schema, "additionalProperties"@);
    let patterns = match view_index(schema, "patternProperties"@) {
        JsonView::Object(es) => pattern_schemas(es, key),
        _ => Seq::empty(),
    };
    let evaluated = evaluated_in_place || !(property is Null) || !(additional is Null) || patterns.len()
        > 0;
    let descents = seq![by_items, property, additional] + patterns;
    if evaluated {
        (descents, true)
    } else {
        (descents.push(view_index(schema, "unevaluatedProperties"@)), false)
    }
}

/// The schemas traversal descends into for member `key` of an instance, and
/// whether some applicator evaluated the key.
pub fn key_subschemas<'s>(schema: &'s JsonValue, key: &str, evaluated_in_place: bool) -> (r: (
    Vec<&'s JsonValue>,
    bool,
))
    ensures
        r.0@.len() == spec_key_subschemas(schema@, key@, evaluated_in_place).0.len(),
        forall|i: int|
            0 <= i < r.0@.len() ==> (#[trigger] r.0@[i])@ == spec_key_subschemas(
                schema@,
                key@,
                evaluated_in_place,
            ).0[i],
        r.1 == spec_key_subschemas(schema@, key@, evaluated_in_place).1,
{
    let mut out: Vec<&'s JsonValue> = Vec::new();
    let by_items: &'s JsonValue = match member(schema, "items") {
        Some(items) => match member(items, key) {
            Some(m) => m,
            None => &JsonValue::Null,
        },
        None => &JsonValue::Null,
    };
    let property: &'s JsonValue = match member(schema, "properties") {
        Some(props) => match member(props, key) {
            Some(m) => m,
            None => &JsonValue::Null,
        },
        None => &JsonValue::Null,
    };
    let additional: &'s JsonValue = match member(schema, "additionalProperties") {
        Some(m) => m,
        None => &JsonValue::Null,
    };
    out.push(by_items);
    out.push(property);
    out.push(additional);
    let mut evaluated = evaluated_in_place || !property.is_null() || !additional.is_null();
    let ghost pats = match view_index(schema@, "patternProperties"@) {
        JsonView::Object(es) => pattern_schemas(es, key@),
        _ => Seq::empty(),
    };
    match member(schema, "patternProperties") {
        Some(JsonValue::Object(es)) => {
            let ghost ev = json_entries_view(es@);
            proof {
                lemma_entries_view(es@);
            }
            let mut i: usize = 0;
            while i < es.len()
                invariant
                    0 <= i <= es@.len(),
                    ev == json_entries_view(es@),
                    ev.len() == es@.len(),
                    forall|k: int| 0 <= k < es@.len() ==> #[trigger] ev[k] == (es@[k].0@, es@[k].1@),
                    out@.len() == 3 + pattern_schemas(ev.take(i as int), key@).len(),
                    out@[0]@ == view_index(view_index(schema@, "items"@), key@),
                    out@[1]@ == view_index(view_index(schema@, "properties"@), key@),
                    out@[2]@ == view_index(schema@, "additionalProperties"@),
                    forall|k: int|
                        0 <= k < pattern_schemas(ev.take(i as int), key@).len() ==> (#[trigger] out@[3
                            + k])@ == pattern_schemas(ev.take(i as int), key@)[k],
                    evaluated == (evaluated_in_place || !(out@[1]@ is Null) || !(out@[2]@ is Null)
                        || pattern_schemas(ev.take(i as int), key@).len() > 0),
                decreases es@.len() - i,
            {
                proof {
                    assert(ev.take(i + 1).drop_last() =~= ev.take(i as int));
                    assert(ev.take(i + 1).last() == ev[i as int]);
                }
                if pattern_search(es[i].0.as_str(), key) == Some(true) {
                    out.push(&es[i].1);
                    evaluated = true;
                }
                i += 1;
            }
            proof {
                assert(ev.take(es@.len() as int) =~= ev);
            }
        },
        _ => {},
    }
    if !evaluated {
        let unevaluated: &'s JsonValue = match member(schema, "unevaluatedProperties") {
            Some(m) => m,
            None => &JsonValue::Null,
        };
        out.push(unevaluated);
    }
    proof {
        let spec = spec_key_subschemas(schema@, key@, evaluated_in_place);
        let descents = seq![
            view_index(view_index(schema@, "items"@), key@),
            view_index(view_index(schema@, "properties"@), key@),
            view_index(schema@, "additionalProperties"@),
        ] + pats;
        assert forall|i: int| 0 <= i < out@.len() implies (#[trigger] out@[i])@ == spec.0[i] by {
            if i >= 3 && i < 3 + pats.len() {
                assert(out@[3 + (i - 3)] == out@[i]);
                assert(descents[i] == pats[i - 3]);
            }
        }
    }
    (out, evaluated)
}

/// The schemas traversal descends into for position `idx` of an array
/// instance, in order, and whether some applicator evaluated the position.
///
/// The position's item schema evaluates it when present, as does
/// `contains` when the item satisfies it (`contains_holds`, consulted only
/// when `contains` is present), as may the in-place applicators already
/// traversed. `unevaluatedItems` applies only to a position nothing
/// evaluated, and evaluates it when present.
pub open spec fn spec_index_subschemas(
    schema: JsonView,
    idx: nat,
    evaluated_in_place: bool,
    contains_holds: Option<bool>,
) -> (Seq<JsonView>, bool) {
    let item = spec_item_schema(schema, idx);
    let evaluated = evaluated_in_place || !(item is Null) || (!(view_index(schema, "contains"@) is Null)
        && contains_holds == Some(true));
    if evaluated {
        (seq![item], true)
    } else {
        let unevaluated = view_index(schema, "unevaluatedItems"@);
        (seq![item, unevaluated], !(unevaluated is Null))
    }
}

/// The schemas traversal descends into for position `idx` of an array
/// instance, and whether some applicator evaluated the position.
pub fn index_subschemas<'s>(
    schema: &'s JsonValue,
    idx: usize,
    evaluated_in_place: bool,
    contains_holds: Option<bool>,
) -> (r: (Vec<&'s JsonValue>, bool))
    ensures
        r.0@.len() == spec_index_subschemas(schema@, idx as nat, evaluated_in_place, contains_holds).0.len(),
        forall|i: int|
            0 <= i < r.0@.len() ==> (#[trigger] r.0@[i])@ == spec_index_subschemas(
                schema@,
                idx as nat,
                evaluated_in_place,
                contains_holds,
            ).0[i],
        r.1 == spec_index_subschemas(schema@, idx as nat, evaluated_in_place, contains_holds).1,
{
    let item = item_schema(schema, idx);
    let mut out: Vec<&'s JsonValue> = Vec::new();
    out.push(item);
    let has_contains = match member(schema, "contains") {
        Some(c) => !c.is_null(),
        None => false,
    };
    let evaluated = evaluated_in_place || !item.is_null() || (has_contains && contains_holds == Some(
        true,
    ));
    if evaluated {
        return (out, true);
    }
    let unevaluated: &'s JsonValue = match member(schema, "unevaluatedItems") {
        Some(m) => m,
        None => &JsonValue::Null,
    };
    out.push(unevaluated);
    (out, !unevaluated.is_null())
}

/// The `enum` of an `allOf` merge keeps, in order, exactly those values of
/// the base's `enum` that the overlay's `enum` holds an equal of.
pub proof fn merged_enum_is_admitted_by_both(l: Seq<JsonView>, r: Seq<JsonView>)
    ensures
        forall|i: int|
            0 <= i < intersect_items(l, r).len() ==> view_contains(r, #[trigger] intersect_items(l, r)[i])
                && l.contains(intersect_items(l, r)[i]),
        forall|j: int| 0 <= j < l.len() && view_contains(r, #[trigger] l[j]) ==> intersect_items(l, r).contains(l[j]),
    decreases l.len(),
{
    if l.len() > 0 {
        let init = l.drop_last();
        merged_enum_is_admitted_by_both(init, r);
        let p = intersect_items(init, r);
        assert forall|i: int| 0 <= i < intersect_items(l, r).len() implies view_contains(
            r,
            #[trigger] intersect_items(l, r)[i],
        ) && l.contains(intersect_items(l, r)[i]) by {
            if i < p.len() {
                assert(intersect_items(l, r)[i] == p[i]);
                assert(init.contains(p[i]));
                let k = choose|k: int| 0 <= k < init.len() && init[k] == p[i];
                assert(l[k] == init[k]);
            } else {
                assert(intersect_items(l, r)[i] == l.last());
                assert(l[l.len() - 1] == l.last());
            }
        }
        assert forall|j: int| 0 <= j < l.len() && view_contains(r, #[trigger] l[j]) implies intersect_items(
            l,
            r,
        ).contains(l[j]) by {
            if j < l.len() - 1 {
                assert(init[j] == l[j]);
                assert(p.contains(l[j]));
                let k = choose|k: int| 0 <= k < p.len() && p[k] == l[j];
                assert(intersect_items(l, r)[k] == p[k]);
            } else {
                assert(intersect_items(l, r)[p.len() as int] == l.last());
            }
        }
    }
}

proof fn lemma_dependents_of_absent(es: Seq<(Seq<char>, JsonView)>, instance: JsonView, x: JsonView)
    requires
        dependents(es, instance).contains(x),
    ensures
        dependents(es, JsonView::Null).contains(x),
    decreases es.len(),
{
    if es.len() > 0 {
        let p = dependents(es.drop_last(), instance);
        let q = dependents(es.drop_last(), JsonView::Null);
        let k = choose|k: int| 0 <= k < dependents(es, instance).len() && dependents(es, instance)[k] == x;
        if k < p.len() {
            assert(p[k] == x);
            lemma_dependents_of_absent(es.drop_last(), instance, x);
            let m = choose|m: int| 0 <= m < q.len() && q[m] == x;
            assert(dependents(es, JsonView::Null)[m] == x);
        } else {
            assert(x == es.last().1);
            assert(dependents(es, JsonView::Null)[q.len() as int] == x);
        }
    }
}

/// Whatever the instance and whatever the condition decided, the subschemas
/// that apply are among those offered for an absent instance under an
/// undecided condition: every branch and every dependent schema.
pub proof fn undecided_conditions_offer_every_subschema(
    schema: JsonView,
    condition: Option<bool>,
    instance: JsonView,
    x: JsonView,
)
    requires
        spec_applicable_conditionals(schema, condition, instance).contains(x),
    ensures
        spec_applicable_conditionals(schema, None, JsonView::Null).contains(x),
{
    let sel = selected_branches(schema, condition);
    let a = keyword_dependents(schema, "dependencies"@, instance);
    let b = keyword_dependents(schema, "dependentSchemas"@, instance);
    let all = spec_applicable_conditionals(schema, None, JsonView::Null);
    let sel0 = selected_branches(schema, None);
    let a0 = keyword_dependents(schema, "dependencies"@, JsonView::Null);
    let b0 = keyword_dependents(schema, "dependentSchemas"@, JsonView::Null);
    assert(all =~= sel0 + a0 + b0);
    let k = choose|k: int|
        0 <= k < spec_applicable_conditionals(schema, condition, instance).len()
            && spec_applicable_conditionals(schema, condition, instance)[k] == x;
    assert(spec_applicable_conditionals(schema, condition, instance) =~= sel + a + b);
    if k < sel.len() {
        assert(sel[k] == x);
        let then_branch = view_index(schema, "then"@);
        let else_branch = view_index(schema, "else"@);
        if non_null(then_branch).contains(x) {
            let m = choose|m: int| 0 <= m < non_null(then_branch).len() && non_null(then_branch)[m] == x;
            assert(sel0[m] == x);
            assert(all[m] == x);
        } else {
            assert(x == else_branch);
            assert(sel0[sel0.len() - 1] == x);
            assert(all[sel0.len() - 1] == x);
        }
    } else if k < sel.len() + a.len() {
        assert(a[k - sel.len()] == x);
        assert(a.contains(x));
        match view_index(schema, "dependencies"@) {
            JsonView::Object(es) => {
                lemma_dependents_of_absent(es, instance, x);
            },
            _ => {},
        }
        let m = choose|m: int| 0 <= m < a0.len() && a0[m] == x;
        assert(all[sel0.len() + m] == x);
    } else {
        assert(b[k - sel.len() - a.len()] == x);
        assert(b.contains(x));
        match view_index(schema, "dependentSchemas"@) {
            JsonView::Object(es) => {
                lemma_dependents_of_absent(es, instance, x);
            },
            _ => {},
        }
        let m = choose|m: int| 0 <= m < b0.len() && b0[m] == x;
        assert(all[sel0.len() + a0.len() + m] == x);
    }
}

/// `target` with the keywords written beside the `$ref` that named it merged
/// over the top, those made absolute against the carrier's `base` first.
pub open spec fn spec_fold_siblings(target: JsonView, carrier: JsonView, base: Seq<char>) -> JsonView {
    match spec_sibling_overlay(carrier) {
        Some(overlay) => spec_merged_over(target, spec_absolute_refs(overlay, base)),
        None => target,
    }
}

/// `target` with the keywords written beside the `$ref` that named it merged
/// over the top.
///
/// The overlay's own references are written in the carrier's document, so
/// they are made absolute against the carrier's base before the merge; the
/// merged value is then read under the target's base, where everything the
/// target itself wrote belongs.
pub fn fold_siblings(target: &JsonValue, carrier: &JsonValue, base: &str) -> (r: JsonValue)
    ensures
        r@ == spec_fold_siblings(target@, carrier@, base@),
{
    match sibling_overlay(carrier) {
        Some(overlay) => merged_over(target, &absolute_refs(&overlay, base)),
        None => copy_json(target),
    }
}

/// The draft a schema is validated as: the one it declares when a validator
/// exists for it, draft-07 otherwise.
pub fn validation_draft(declared: &DeclaredDraft) -> (r: SchemaDraft)
    ensures
        r == match declared@ {
            DraftDeclaration::Supported(d) => d,
            _ => SchemaDraft::Draft7,
        },
{
    match declared {
        DeclaredDraft::Supported(d) => *d,
        _ => SchemaDraft::Draft7,
    }
}

/// How an external schema is fetched.
#[derive(Clone, Copy, Debug, PartialEq, Eq, Structural)]
pub enum FetchRoute {
    /// Over HTTP or HTTPS.
    Http,
    /// From the file system.
    File,
    /// Not at all: the scheme is not supported.
    Unsupported,
}

/// How an external schema with a URL of this scheme is fetched: `http` and
/// `https` over HTTP, `file` from the file system, any other not at all.
pub fn fetch_route(scheme: &str) -> (r: FetchRoute)
    ensures
        r == if scheme@ == "http"@ || scheme@ == "https"@ {
            FetchRoute::Http
        } else if scheme@ == "file"@ {
            FetchRoute::File
        } else {
            FetchRoute::Unsupported
        },
{
    if str_equals(scheme, "http") || str_equals(scheme, "https") {
        FetchRoute::Http
    } else if str_equals(scheme, "file") {
        FetchRoute::File
    } else {
        FetchRoute::Unsupported
    }
}

} // verus!
