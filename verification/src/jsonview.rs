use vstd::prelude::*;

use crate::json::{entries_get, entry_matched, json_eq, spec_number_eq, JsonNumber, JsonValue};

verus! {

/// A JSON value as the specifications read it: arrays and objects are
/// sequences, strings are their characters.
pub enum JsonView {
    Null,
    Bool(bool),
    Number(JsonNumber),
    String(Seq<char>),
    Array(Seq<JsonView>),
    Object(Seq<(Seq<char>, JsonView)>),
}

/// The view of a value.
pub open spec fn json_view(v: JsonValue) -> JsonView
    decreases v, 1int,
{
    match v {
        JsonValue::Null => JsonView::Null,
        JsonValue::Bool(b) => JsonView::Bool(b),
        JsonValue::Number(n) => JsonView::Number(n),
        JsonValue::String(s) => JsonView::String(s@),
        JsonValue::Array(xs) => JsonView::Array(json_items_view(xs@)),
        JsonValue::Object(es) => JsonView::Object(json_entries_view(es@)),
    }
}

/// The views of array items, in order.
pub open spec fn json_items_view(xs: Seq<JsonValue>) -> Seq<JsonView>
    decreases xs, 0int,
{
    if xs.len() == 0 {
        Seq::empty()
    } else {
        json_items_view(xs.drop_last()).push(json_view(xs.last()))
    }
}

/// The views of object entries, in order.
pub open spec fn json_entries_view(es: Seq<(String, JsonValue)>) -> Seq<(Seq<char>, JsonView)>
    decreases es, 0int,
{
    if es.len() == 0 {
        Seq::empty()
    } else {
        json_entries_view(es.drop_last()).push((es.last().0@, json_view(es.last().1)))
    }
}

impl View for JsonValue {
    type V = JsonView;

    open spec fn view(&self) -> JsonView {
        json_view(*self)
    }
}

pub proof fn lemma_items_view(xs: Seq<JsonValue>)
    ensures
        json_items_view(xs).len() == xs.len(),
        forall|i: int| 0 <= i < xs.len() ==> #[trigger] json_items_view(xs)[i] == json_view(xs[i]),
    decreases xs.len(),
{
    if xs.len() > 0 {
        lemma_items_view(xs.drop_last());
    }
}

pub proof fn lemma_entries_view(es: Seq<(String, JsonValue)>)
    ensures
        json_entries_view(es).len() == es.len(),
        forall|i: int|
            0 <= i < es.len() ==> #[trigger] json_entries_view(es)[i] == (es[i].0@, json_view(es[i].1)),
    decreases es.len(),
{
    if es.len() > 0 {
        lemma_entries_view(es.drop_last());
    }
}

/// Entries are read from the first: the first entry under a key is the one
/// that counts.
pub open spec fn view_get(es: Seq<(Seq<char>, JsonView)>, key: Seq<char>) -> Option<JsonView>
    decreases es.len(),
{
    if es.len() == 0 {
        None
    } else if es[0].0 == key {
        Some(es[0].1)
    } else {
        view_get(es.drop_first(), key)
    }
}

/// `value[key]` on a view: the member of an object, `Null` where there is none.
pub open spec fn view_index(v: JsonView, key: Seq<char>) -> JsonView {
    match v {
        JsonView::Object(es) => match view_get(es, key) {
            Some(m) => m,
            None => JsonView::Null,
        },
        _ => JsonView::Null,
    }
}

/// `es` with `key` set to `value`: the first entry under `key` is replaced in
/// place, or a new entry is appended when there is none.
pub open spec fn view_insert(es: Seq<(Seq<char>, JsonView)>, key: Seq<char>, value: JsonView) -> Seq<
    (Seq<char>, JsonView),
>
    decreases es.len(),
{
    if es.len() == 0 {
        seq![(key, value)]
    } else if es[0].0 == key {
        es.update(0, (key, value))
    } else {
        seq![es[0]] + view_insert(es.drop_first(), key, value)
    }
}

/// `value[key] = member` on a view: an object gets the member set, `Null`
/// becomes an object of that one member.
pub open spec fn set_member(v: JsonView, key: Seq<char>, member: JsonView) -> JsonView {
    match v {
        JsonView::Object(es) => JsonView::Object(view_insert(es, key, member)),
        JsonView::Null => JsonView::Object(seq![(key, member)]),
        _ => v,
    }
}

/// Whether two views are equal as `serde_json` compares values: by kind and
/// content, arrays element by element, objects as maps.
pub open spec fn view_eq(a: JsonView, b: JsonView) -> bool
    decreases a, 0int,
{
    match a {
        JsonView::Null => b is Null,
        JsonView::Bool(x) => b == JsonView::Bool(x),
        JsonView::Number(x) => match b {
            JsonView::Number(y) => spec_number_eq(x, y),
            _ => false,
        },
        JsonView::String(x) => b == JsonView::String(x),
        JsonView::Array(xs) => match b {
            JsonView::Array(ys) => xs.len() == ys.len() && forall|i: int|
                0 <= i < xs.len() ==> view_eq(#[trigger] xs[i], ys[i]),
            _ => false,
        },
        JsonView::Object(xs) => match b {
            JsonView::Object(ys) => xs.len() == ys.len() && forall|i: int|
                0 <= i < xs.len() ==> view_entry_matched(#[trigger] xs[i], ys),
            _ => false,
        },
    }
}

/// Whether some entry of `ys` has the key of `x` and a value equal to its.
pub open spec fn view_entry_matched(x: (Seq<char>, JsonView), ys: Seq<(Seq<char>, JsonView)>) -> bool
    decreases x.1, ys.len(),
{
    if ys.len() == 0 {
        false
    } else {
        (ys[0].0 == x.0 && view_eq(x.1, ys[0].1)) || view_entry_matched(x, ys.drop_first())
    }
}

/// Whether `s` holds a value equal to `x`.
pub open spec fn view_contains(s: Seq<JsonView>, x: JsonView) -> bool {
    exists|i: int| 0 <= i < s.len() && view_eq(#[trigger] s[i], x)
}

proof fn lemma_entries_view_drop_first(es: Seq<(String, JsonValue)>)
    requires
        es.len() > 0,
    ensures
        json_entries_view(es.drop_first()) == json_entries_view(es).drop_first(),
{
    lemma_entries_view(es);
    lemma_entries_view(es.drop_first());
    assert(json_entries_view(es.drop_first()) =~= json_entries_view(es).drop_first());
}

/// Every value equals itself.
pub proof fn lemma_view_eq_reflexive(a: JsonView)
    ensures
        view_eq(a, a),
    decreases a, 0int,
{
    match a {
        JsonView::Array(xs) => {
            assert forall|i: int| 0 <= i < xs.len() implies view_eq(#[trigger] xs[i], xs[i]) by {
                assert(decreases_to!(a => a->Array_0[i]));
                lemma_view_eq_reflexive(xs[i]);
            }
        },
        JsonView::Object(xs) => {
            assert forall|i: int| 0 <= i < xs.len() implies view_entry_matched(#[trigger] xs[i], xs) by {
                assert(decreases_to!(a => a->Object_0[i].1));
                lemma_view_eq_reflexive(xs[i].1);
                lemma_entry_matched_at(xs[i], xs, i);
            }
        },
        _ => {},
    }
}

/// An entry is matched by a sequence that holds an equal entry.
proof fn lemma_entry_matched_at(x: (Seq<char>, JsonView), ys: Seq<(Seq<char>, JsonView)>, j: int)
    requires
        0 <= j < ys.len(),
        ys[j].0 == x.0,
        view_eq(x.1, ys[j].1),
    ensures
        view_entry_matched(x, ys),
    decreases j,
{
    if j > 0 {
        lemma_entry_matched_at(x, ys.drop_first(), j - 1);
    }
}

/// Comparing values and comparing their views agree.
pub proof fn lemma_json_eq_view(a: JsonValue, b: JsonValue)
    ensures
        json_eq(a, b) == view_eq(a@, b@),
    decreases a, 0int,
{
    match a {
        JsonValue::Array(xs) => match b {
            JsonValue::Array(ys) => {
                lemma_items_view(xs@);
                lemma_items_view(ys@);
                assert forall|i: int| 0 <= i < xs@.len() && i < ys@.len() implies json_eq(
                    #[trigger] xs@[i],
                    ys@[i],
                ) == view_eq(json_items_view(xs@)[i], json_items_view(ys@)[i]) by {
                    assert(decreases_to!(a => a->Array_0@[i]));
                    lemma_json_eq_view(xs@[i], ys@[i]);
                }
                if xs@.len() == ys@.len() {
                    if json_eq(a, b) {
                        assert forall|i: int| 0 <= i < json_items_view(xs@).len() implies view_eq(
                            #[trigger] json_items_view(xs@)[i],
                            json_items_view(ys@)[i],
                        ) by {
                            assert(json_eq(xs@[i], ys@[i]));
                        }
                    }
                    if view_eq(a@, b@) {
                        assert forall|i: int| 0 <= i < xs@.len() implies json_eq(
                            #[trigger] xs@[i],
                            ys@[i],
                        ) by {
                            assert(view_eq(json_items_view(xs@)[i], json_items_view(ys@)[i]));
                        }
                    }
                }
            },
            _ => {},
        },
        JsonValue::Object(xs) => match b {
            JsonValue::Object(ys) => {
                lemma_entries_view(xs@);
                lemma_entries_view(ys@);
                assert forall|i: int| 0 <= i < xs@.len() implies entry_matched(#[trigger] xs@[i], ys@)
                    == view_entry_matched(json_entries_view(xs@)[i], json_entries_view(ys@)) by {
                    assert(decreases_to!(a => a->Object_0@[i].1));
                    lemma_entry_matched_view(xs@[i], ys@);
                }
                if xs@.len() == ys@.len() {
                    if json_eq(a, b) {
                        assert forall|i: int| 0 <= i < json_entries_view(xs@).len() implies view_entry_matched(
                            #[trigger] json_entries_view(xs@)[i],
                            json_entries_view(ys@),
                        ) by {
                            assert(entry_matched(xs@[i], ys@));
                        }
                    }
                    if view_eq(a@, b@) {
                        assert forall|i: int| 0 <= i < xs@.len() implies entry_matched(
                            #[trigger] xs@[i],
                            ys@,
                        ) by {
                            assert(view_entry_matched(json_entries_view(xs@)[i], json_entries_view(ys@)));
                        }
                    }
                }
            },
            _ => {},
        },
        _ => {},
    }
}

proof fn lemma_entry_matched_view(x: (String, JsonValue), ys: Seq<(String, JsonValue)>)
    ensures
        entry_matched(x, ys) == view_entry_matched((x.0@, json_view(x.1)), json_entries_view(ys)),
    decreases x.1, ys.len(),
{
    lemma_entries_view(ys);
    if ys.len() > 0 {
        lemma_json_eq_view(x.1, ys[0].1);
        lemma_entry_matched_view(x, ys.drop_first());
        lemma_entries_view_drop_first(ys);
    }
}

/// A copy of a value.
pub fn copy_json(v: &JsonValue) -> (r: JsonValue)
    ensures
        r@ == v@,
    decreases v,
{
    match v {
        JsonValue::Null => JsonValue::Null,
        JsonValue::Bool(b) => JsonValue::Bool(*b),
        JsonValue::Number(n) => JsonValue::Number(n.clone()),
        JsonValue::String(s) => JsonValue::String(s.clone()),
        JsonValue::Array(xs) => {
            let mut out: Vec<JsonValue> = Vec::new();
            let mut i: usize = 0;
            while i < xs.len()
                invariant
                    0 <= i <= xs@.len(),
                    out@.len() == i,
                    *v == JsonValue::Array(*xs),
                    forall|k: int| 0 <= k < i ==> (#[trigger] out@[k])@ == xs@[k]@,
                decreases xs@.len() - i,
            {
                assert(decreases_to!(*v => (*v)->Array_0@[i as int]));
                let c = copy_json(&xs[i]);
                out.push(c);
                i += 1;
            }
            proof {
                lemma_items_view(out@);
                lemma_items_view(xs@);
                assert(json_items_view(out@) =~= json_items_view(xs@));
            }
            JsonValue::Array(out)
        },
        JsonValue::Object(es) => {
            let out = copy_entries_of(v, es);
            JsonValue::Object(out)
        },
    }
}

/// A copy of the entries of the object `v`.
fn copy_entries_of(v: &JsonValue, es: &Vec<(String, JsonValue)>) -> (r: Vec<(String, JsonValue)>)
    requires
        *v == JsonValue::Object(*es),
    ensures
        json_entries_view(r@) == json_entries_view(es@),
    decreases v, 0int,
{
    let mut out: Vec<(String, JsonValue)> = Vec::new();
    let mut i: usize = 0;
    while i < es.len()
        invariant
            0 <= i <= es@.len(),
            out@.len() == i,
            *v == JsonValue::Object(*es),
            forall|k: int| 0 <= k < i ==> (#[trigger] out@[k]).0@ == es@[k].0@ && out@[k].1@ == es@[k].1@,
        decreases es@.len() - i,
    {
        assert(decreases_to!(*v => (*v)->Object_0@[i as int].1));
        let c = copy_json(&es[i].1);
        let k = es[i].0.clone();
        out.push((k, c));
        i += 1;
    }
    proof {
        lemma_entries_view(out@);
        lemma_entries_view(es@);
        assert(json_entries_view(out@) =~= json_entries_view(es@));
    }
    out
}

/// Copies of the entries of an object.
pub fn copy_entries(es: &Vec<(String, JsonValue)>) -> (r: Vec<(String, JsonValue)>)
    ensures
        json_entries_view(r@) == json_entries_view(es@),
{
    let mut out: Vec<(String, JsonValue)> = Vec::new();
    let mut i: usize = 0;
    while i < es.len()
        invariant
            0 <= i <= es@.len(),
            out@.len() == i,
            forall|k: int| 0 <= k < i ==> (#[trigger] out@[k]).0@ == es@[k].0@ && out@[k].1@ == es@[k].1@,
        decreases es@.len() - i,
    {
        let c = copy_json(&es[i].1);
        let k = es[i].0.clone();
        out.push((k, c));
        i += 1;
    }
    proof {
        lemma_entries_view(out@);
        lemma_entries_view(es@);
        assert(json_entries_view(out@) =~= json_entries_view(es@));
    }
    out
}

/// Copies of array items.
pub fn copy_items(xs: &Vec<JsonValue>) -> (r: Vec<JsonValue>)
    ensures
        json_items_view(r@) == json_items_view(xs@),
{
    let mut out: Vec<JsonValue> = Vec::new();
    let mut i: usize = 0;
    while i < xs.len()
        invariant
            0 <= i <= xs@.len(),
            out@.len() == i,
            forall|k: int| 0 <= k < i ==> (#[trigger] out@[k])@ == xs@[k]@,
        decreases xs@.len() - i,
    {
        let c = copy_json(&xs[i]);
        out.push(c);
        i += 1;
    }
    proof {
        lemma_items_view(out@);
        lemma_items_view(xs@);
        assert(json_items_view(out@) =~= json_items_view(xs@));
    }
    out
}

proof fn lemma_view_insert_at(es: Seq<(Seq<char>, JsonView)>, key: Seq<char>, value: JsonView, i: int)
    requires
        0 <= i < es.len(),
        es[i].0 == key,
        forall|h: int| 0 <= h < i ==> es[h].0 != key,
    ensures
        view_insert(es, key, value) == es.update(i, (key, value)),
    decreases es.len(),
{
    if i > 0 {
        lemma_view_insert_at(es.drop_first(), key, value, i - 1);
        assert(seq![es[0]] + es.drop_first().update(i - 1, (key, value)) =~= es.update(i, (key, value)));
    }
}

proof fn lemma_view_insert_absent(es: Seq<(Seq<char>, JsonView)>, key: Seq<char>, value: JsonView)
    requires
        forall|h: int| 0 <= h < es.len() ==> es[h].0 != key,
    ensures
        view_insert(es, key, value) == es.push((key, value)),
    decreases es.len(),
{
    if es.len() > 0 {
        lemma_view_insert_absent(es.drop_first(), key, value);
        assert(seq![es[0]] + es.drop_first().push((key, value)) =~= es.push((key, value)));
    } else {
        assert(seq![(key, value)] =~= es.push((key, value)));
    }
}

/// Sets `key` to `value` among the entries of an object: the first entry
/// under `key` is replaced in place, or the entry is appended.
pub fn entries_insert(es: &mut Vec<(String, JsonValue)>, key: String, value: JsonValue)
    ensures
        json_entries_view(final(es)@) == view_insert(json_entries_view(old(es)@), key@, value@),
{
    let ghost old_view = json_entries_view(es@);
    proof {
        lemma_entries_view(es@);
    }
    let mut i: usize = 0;
    while i < es.len()
        invariant
            0 <= i <= es@.len(),
            old_view == json_entries_view(es@),
            es@ == old(es)@,
            old_view.len() == es@.len(),
            forall|h: int| 0 <= h < i ==> (#[trigger] old_view[h]).0 != key@,
            forall|h: int| 0 <= h < es@.len() ==> #[trigger] old_view[h] == (es@[h].0@, es@[h].1@),
        decreases es@.len() - i,
    {
        if es[i].0 == key {
            let ghost before = es@;
            proof {
                lemma_view_insert_at(old_view, key@, value@, i as int);
            }
            es.set(i, (key, value));
            proof {
                lemma_entries_view(es@);
                assert(json_entries_view(es@) =~= old_view.update(i as int, (key@, value@)));
            }
            return;
        }
        i += 1;
    }
    proof {
        lemma_view_insert_absent(old_view, key@, value@);
    }
    let ghost k = key@;
    let ghost vv = value@;
    es.push((key, value));
    proof {
        lemma_entries_view(es@);
        assert(json_entries_view(es@) =~= old_view.push((k, vv)));
    }
}

/// How deeply arrays and objects nest in a view: 0 for a scalar, one more
/// than the deepest element for an array or an object.
pub open spec fn view_height(v: JsonView) -> nat
    decreases v, 1int,
{
    match v {
        JsonView::Array(xs) => 1 + view_items_height(xs),
        JsonView::Object(es) => 1 + view_entries_height(es),
        _ => 0,
    }
}

/// The greatest height among `xs`.
pub open spec fn view_items_height(xs: Seq<JsonView>) -> nat
    decreases xs, 0int,
{
    if xs.len() == 0 {
        0
    } else {
        let a = view_items_height(xs.drop_last());
        let b = view_height(xs.last());
        if a < b {
            b
        } else {
            a
        }
    }
}

/// The greatest height among the values of `es`.
pub open spec fn view_entries_height(es: Seq<(Seq<char>, JsonView)>) -> nat
    decreases es, 0int,
{
    if es.len() == 0 {
        0
    } else {
        let a = view_entries_height(es.drop_last());
        let b = view_height(es.last().1);
        if a < b {
            b
        } else {
            a
        }
    }
}

/// Every entry of an object is less deep than the object, and so is the
/// object of a prefix of its entries at most as deep.
pub proof fn lemma_entry_height(es: Seq<(Seq<char>, JsonView)>, i: int)
    requires
        0 <= i < es.len(),
    ensures
        view_height(es[i].1) < view_height(JsonView::Object(es)),
        view_entries_height(es.drop_last()) <= view_entries_height(es),
    decreases es.len(),
{
    if i < es.len() - 1 {
        lemma_entry_height(es.drop_last(), i);
    }
}

/// Every item of an array is less deep than the array.
pub proof fn lemma_item_height(xs: Seq<JsonView>, i: int)
    requires
        0 <= i < xs.len(),
    ensures
        view_height(xs[i]) < view_height(JsonView::Array(xs)),
    decreases xs.len(),
{
    if i < xs.len() - 1 {
        lemma_item_height(xs.drop_last(), i);
    }
}

/// What `view_get` finds is an entry of the object.
pub proof fn lemma_view_get_entry(es: Seq<(Seq<char>, JsonView)>, key: Seq<char>)
    requires
        view_get(es, key) is Some,
    ensures
        exists|i: int| 0 <= i < es.len() && #[trigger] es[i].1 == view_get(es, key)->0,
        view_height(view_get(es, key)->0) < view_height(JsonView::Object(es)),
    decreases es.len(),
{
    if es[0].0 == key {
        assert(es[0].1 == view_get(es, key)->0);
        lemma_entry_height(es, 0);
    } else {
        lemma_view_get_entry(es.drop_first(), key);
        let i = choose|i: int| 0 <= i < es.drop_first().len() && #[trigger] es.drop_first()[i].1 == view_get(
            es.drop_first(),
            key,
        )->0;
        assert(es[i + 1].1 == view_get(es, key)->0);
        lemma_entry_height(es, i + 1);
    }
}

/// A member is less deep than the value holding it.
pub proof fn lemma_member_height(v: JsonView, key: Seq<char>)
    requires
        v is Object,
        view_get(v->Object_0, key) is Some,
    ensures
        view_height(view_index(v, key)) < view_height(v),
{
    lemma_view_get_entry(v->Object_0, key);
}

/// Looking a key up in a value and in its view agree.
pub proof fn lemma_get_view(es: Seq<(String, JsonValue)>, key: Seq<char>)
    ensures
        view_get(json_entries_view(es), key) == match entries_get(es, key) {
            Some(v) => Some(json_view(v)),
            None => None::<JsonView>,
        },
    decreases es.len(),
{
    lemma_entries_view(es);
    if es.len() > 0 {
        lemma_entries_view_drop_first(es);
        lemma_get_view(es.drop_first(), key);
    }
}

/// `value[key]` of a value, viewed, is `value[key]` of its view.
pub proof fn lemma_index_view(v: JsonValue, key: Seq<char>)
    ensures
        json_view(crate::json::spec_index(v, key)) == view_index(json_view(v), key),
{
    match v {
        JsonValue::Object(es) => lemma_get_view(es@, key),
        _ => {},
    }
}

/// `value[key] = member`: an object gets the member set, `Null` becomes an
/// object of that one member, and any other value is left as it is.
pub fn set_member_exec(v: &mut JsonValue, key: &str, member: JsonValue)
    ensures
        final(v)@ == set_member(old(v)@, key@, member@),
{
    match v {
        JsonValue::Object(es) => {
            entries_insert(es, key.to_owned(), member);
        },
        JsonValue::Null => {
            let k = key.to_owned();
            let ghost mv = member@;
            let es = vec![(k, member)];
            proof {
                lemma_entries_view(es@);
                assert(json_entries_view(es@) =~= seq![(key@, mv)]);
            }
            *v = JsonValue::Object(es);
        },
        _ => {},
    }
}

/// Whether no two entries share a key, as in every object `serde_json` builds.
pub open spec fn keys_distinct(es: Seq<(Seq<char>, JsonView)>) -> bool {
    forall|i: int, j: int| 0 <= i < j < es.len() ==> #[trigger] es[i].0 != #[trigger] es[j].0
}

/// Setting a key changes what that key reads and nothing else.
pub proof fn lemma_view_get_insert(
    es: Seq<(Seq<char>, JsonView)>,
    key: Seq<char>,
    value: JsonView,
    k: Seq<char>,
)
    ensures
        k == key ==> view_get(view_insert(es, key, value), k) == Some(value),
        k != key ==> view_get(view_insert(es, key, value), k) == view_get(es, k),
    decreases es.len(),
{
    reveal_with_fuel(view_get, 2);
    if es.len() > 0 {
        if es[0].0 == key {
            assert(es.update(0, (key, value))[0] == (key, value));
            assert(es.update(0, (key, value)).drop_first() =~= es.drop_first());
        } else {
            lemma_view_get_insert(es.drop_first(), key, value, k);
            assert((seq![es[0]] + view_insert(es.drop_first(), key, value))[0] == es[0]);
            assert((seq![es[0]] + view_insert(es.drop_first(), key, value)).drop_first()
                =~= view_insert(es.drop_first(), key, value));
        }
    } else {
        assert(seq![(key, value)][0] == (key, value));
        assert(seq![(key, value)].drop_first() =~= Seq::<(Seq<char>, JsonView)>::empty());
    }
}

/// Reading a key after appending an entry finds an earlier entry first.
pub proof fn lemma_view_get_push(es: Seq<(Seq<char>, JsonView)>, e: (Seq<char>, JsonView), k: Seq<char>)
    ensures
        view_get(es, k) is Some ==> view_get(es.push(e), k) == view_get(es, k),
        view_get(es, k) is None && e.0 == k ==> view_get(es.push(e), k) == Some(e.1),
        view_get(es, k) is None && e.0 != k ==> view_get(es.push(e), k) is None,
    decreases es.len(),
{
    reveal_with_fuel(view_get, 2);
    if es.len() > 0 {
        lemma_view_get_push(es.drop_first(), e, k);
        assert(es.push(e)[0] == es[0]);
        assert(es.push(e).drop_first() =~= es.drop_first().push(e));
    } else {
        assert(es.push(e)[0] == e);
        assert(es.push(e).drop_first() =~= Seq::<(Seq<char>, JsonView)>::empty());
    }
}

/// A key no entry has reads as absent.
pub proof fn lemma_view_get_absent(es: Seq<(Seq<char>, JsonView)>, k: Seq<char>)
    requires
        forall|i: int| 0 <= i < es.len() ==> #[trigger] es[i].0 != k,
    ensures
        view_get(es, k) is None,
    decreases es.len(),
{
    if es.len() > 0 {
        assert forall|i: int| 0 <= i < es.drop_first().len() implies #[trigger] es.drop_first()[i].0 != k by {
            assert(es.drop_first()[i] == es[i + 1]);
        }
        lemma_view_get_absent(es.drop_first(), k);
    }
}

/// `es` without its first entry under `key`.
pub open spec fn view_remove(es: Seq<(Seq<char>, JsonView)>, key: Seq<char>) -> Seq<(Seq<char>, JsonView)>
    decreases es.len(),
{
    if es.len() == 0 {
        es
    } else if es[0].0 == key {
        es.drop_first()
    } else {
        seq![es[0]] + view_remove(es.drop_first(), key)
    }
}

proof fn lemma_view_remove_at(es: Seq<(Seq<char>, JsonView)>, key: Seq<char>, i: int)
    requires
        0 <= i < es.len(),
        es[i].0 == key,
        forall|h: int| 0 <= h < i ==> es[h].0 != key,
    ensures
        view_remove(es, key) == es.remove(i),
    decreases es.len(),
{
    if i > 0 {
        lemma_view_remove_at(es.drop_first(), key, i - 1);
        assert(seq![es[0]] + es.drop_first().remove(i - 1) =~= es.remove(i));
    } else {
        assert(es.drop_first() =~= es.remove(0));
    }
}

proof fn lemma_view_remove_absent(es: Seq<(Seq<char>, JsonView)>, key: Seq<char>)
    requires
        forall|h: int| 0 <= h < es.len() ==> es[h].0 != key,
    ensures
        view_remove(es, key) == es,
    decreases es.len(),
{
    if es.len() > 0 {
        lemma_view_remove_absent(es.drop_first(), key);
        assert(seq![es[0]] + es.drop_first() =~= es);
    }
}

/// Removes the first entry under `key` from the entries of an object.
pub fn entries_remove(es: &mut Vec<(String, JsonValue)>, key: &str)
    ensures
        json_entries_view(final(es)@) == view_remove(json_entries_view(old(es)@), key@),
{
    let ghost old_view = json_entries_view(es@);
    proof {
        lemma_entries_view(es@);
    }
    let mut i: usize = 0;
    while i < es.len()
        invariant
            0 <= i <= es@.len(),
            old_view == json_entries_view(es@),
            es@ == old(es)@,
            old_view.len() == es@.len(),
            forall|h: int| 0 <= h < i ==> (#[trigger] old_view[h]).0 != key@,
            forall|h: int| 0 <= h < es@.len() ==> #[trigger] old_view[h] == (es@[h].0@, es@[h].1@),
        decreases es@.len() - i,
    {
        if crate::text::str_equals(es[i].0.as_str(), key) {
            proof {
                lemma_view_remove_at(old_view, key@, i as int);
            }
            let _ = es.remove(i);
            proof {
                lemma_entries_view(es@);
                assert(json_entries_view(es@) =~= old_view.remove(i as int));
            }
            return;
        }
        i += 1;
    }
    proof {
        lemma_view_remove_absent(old_view, key@);
    }
}

/// Looks `key` up among the entries of an object.
pub fn entries_contain(es: &Vec<(String, JsonValue)>, key: &str) -> (r: bool)
    ensures
        r == view_get(json_entries_view(es@), key@) is Some,
{
    let ghost ev = json_entries_view(es@);
    proof {
        lemma_entries_view(es@);
    }
    let mut i: usize = 0;
    while i < es.len()
        invariant
            0 <= i <= es@.len(),
            ev == json_entries_view(es@),
            ev.len() == es@.len(),
            forall|h: int| 0 <= h < i ==> (#[trigger] ev[h]).0 != key@,
            forall|h: int| 0 <= h < es@.len() ==> #[trigger] ev[h] == (es@[h].0@, es@[h].1@),
        decreases es@.len() - i,
    {
        if crate::text::str_equals(es[i].0.as_str(), key) {
            proof {
                lemma_view_get_found(ev, key@, i as int);
            }
            return true;
        }
        i += 1;
    }
    proof {
        lemma_view_get_absent(ev, key@);
    }
    false
}

proof fn lemma_view_get_found(es: Seq<(Seq<char>, JsonView)>, key: Seq<char>, i: int)
    requires
        0 <= i < es.len(),
        es[i].0 == key,
    ensures
        view_get(es, key) is Some,
    decreases es.len(),
{
    if es[0].0 != key {
        lemma_view_get_found(es.drop_first(), key, i - 1);
    }
}

} // verus!
