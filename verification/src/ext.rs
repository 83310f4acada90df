use vstd::prelude::*;

use crate::json::{spec_get, spec_index, spec_str_at, JsonValue};
use crate::markdown::strs;

verus! {

/// Taplo's documentation overrides under `x-taplo.docs`.
#[derive(Debug)]
pub struct ExtDocs {
    pub main: Option<String>,
    pub const_value: Option<String>,
    pub default_value: Option<String>,
    pub enum_values: Option<Vec<Option<String>>>,
}

/// Taplo's links under `x-taplo.links`.
#[derive(Debug)]
pub struct ExtLinks {
    pub key: Option<String>,
    pub enum_values: Option<Vec<Option<String>>>,
}

/// Taplo's schema extension, the object under `x-taplo`.
#[derive(Debug)]
pub struct SchemaExt {
    pub docs: Option<ExtDocs>,
    pub links: Option<ExtLinks>,
    pub init_keys: Option<Vec<String>>,
}

/// A member that may be absent, `null` or a string decodes.
pub open spec fn opt_string_ok(v: Option<JsonValue>) -> bool {
    match v {
        None => true,
        Some(JsonValue::Null) => true,
        Some(JsonValue::String(_)) => true,
        _ => false,
    }
}

/// Every element is `null` or a string.
pub open spec fn nullable_strings_ok(items: Seq<JsonValue>) -> bool {
    forall|i: int| 0 <= i < items.len() ==> (#[trigger] items[i] is Null || items[i] is String)
}

/// Every element is a string.
pub open spec fn strings_ok(items: Seq<JsonValue>) -> bool {
    forall|i: int| 0 <= i < items.len() ==> #[trigger] items[i] is String
}

/// A member that may be absent, `null` or a list of optional strings decodes.
pub open spec fn opt_nullable_list_ok(v: Option<JsonValue>) -> bool {
    match v {
        None => true,
        Some(JsonValue::Null) => true,
        Some(JsonValue::Array(items)) => nullable_strings_ok(items@),
        _ => false,
    }
}

/// A member that may be absent, `null` or a list of strings decodes.
pub open spec fn opt_string_list_ok(v: Option<JsonValue>) -> bool {
    match v {
        None => true,
        Some(JsonValue::Null) => true,
        Some(JsonValue::Array(items)) => strings_ok(items@),
        _ => false,
    }
}

/// `x-taplo.docs` decodes: absent, `null`, or an object whose known members
/// have their types.
pub open spec fn docs_ok(v: Option<JsonValue>) -> bool {
    match v {
        None => true,
        Some(JsonValue::Null) => true,
        Some(d) => d is Object && opt_string_ok(spec_get(d, "main"@)) && opt_string_ok(
            spec_get(d, "constValue"@),
        ) && opt_string_ok(spec_get(d, "defaultValue"@)) && opt_nullable_list_ok(
            spec_get(d, "enumValues"@),
        ),
    }
}

/// `x-taplo.links` decodes: absent, `null`, or an object whose known members
/// have their types.
pub open spec fn links_ok(v: Option<JsonValue>) -> bool {
    match v {
        None => true,
        Some(JsonValue::Null) => true,
        Some(l) => l is Object && opt_string_ok(spec_get(l, "key"@)) && opt_nullable_list_ok(
            spec_get(l, "enumValues"@),
        ),
    }
}

/// The extension object decodes: an object whose known members have their
/// types. Unknown members are ignored.
pub open spec fn ext_ok(x: JsonValue) -> bool {
    &&& x is Object
    &&& docs_ok(spec_get(x, "docs"@))
    &&& links_ok(spec_get(x, "links"@))
    &&& opt_string_list_ok(spec_get(x, "initKeys"@))
}

/// The decoded extension object of a schema, when it has one that decodes.
pub open spec fn spec_ext(schema: JsonValue) -> Option<JsonValue> {
    match spec_get(schema, "x-taplo"@) {
        Some(x) => if ext_ok(x) {
            Some(x)
        } else {
            None
        },
        None => None,
    }
}

/// The string `x-taplo.<section>.<field>` gives, when the extension decodes.
pub open spec fn spec_ext_str(schema: JsonValue, section: Seq<char>, field: Seq<char>) -> Option<Seq<char>> {
    match spec_ext(schema) {
        Some(x) => spec_str_at(spec_index(x, section), field),
        None => None,
    }
}

/// The optional strings of a list, in order.
pub open spec fn nullable_strings(items: Seq<JsonValue>) -> Seq<Option<Seq<char>>> {
    items.map_values(|v: JsonValue| match v {
        JsonValue::String(s) => Some(s@),
        _ => None,
    })
}

/// The list `x-taplo.<section>.enumValues` gives, empty when absent or when
/// the extension does not decode.
pub open spec fn spec_ext_enum_values(schema: JsonValue, section: Seq<char>) -> Seq<Option<Seq<char>>> {
    match spec_ext(schema) {
        Some(x) => match spec_index(spec_index(x, section), "enumValues"@) {
            JsonValue::Array(items) => nullable_strings(items@),
            _ => Seq::empty(),
        },
        None => Seq::empty(),
    }
}

/// The strings of a list.
pub open spec fn list_strings(items: Seq<JsonValue>) -> Seq<Seq<char>> {
    items.map_values(|v: JsonValue| match v {
        JsonValue::String(s) => s@,
        _ => Seq::empty(),
    })
}

/// The keys `x-taplo.initKeys` asks a new table to start with, when the
/// extension decodes and gives them.
pub open spec fn spec_ext_init_keys(schema: JsonValue) -> Option<Seq<Seq<char>>> {
    match spec_ext(schema) {
        Some(x) => match spec_index(x, "initKeys"@) {
            JsonValue::Array(items) => Some(list_strings(items@)),
            _ => None,
        },
        None => None,
    }
}

/// The optional strings of a vector, in order.
pub open spec fn opt_strs(v: Seq<Option<String>>) -> Seq<Option<Seq<char>>> {
    v.map_values(|s: Option<String>| match s {
        Some(s) => Some(s@),
        None => None,
    })
}

/// The characters of an optional string.
pub open spec fn opt_chars(s: Option<String>) -> Option<Seq<char>> {
    match s {
        Some(s) => Some(s@),
        None => None,
    }
}

/// Reads a member that may be absent, `null` or a string; `Err` when it has
/// another shape.
fn decode_opt_string(obj: &JsonValue, key: &str) -> (r: Result<Option<String>, ()>)
    ensures
        r is Ok <==> opt_string_ok(spec_get(*obj, key@)),
        r matches Ok(s) ==> opt_chars(s) == spec_str_at(*obj, key@),
{
    match obj.get(key) {
        None => Ok(None),
        Some(JsonValue::Null) => Ok(None),
        Some(JsonValue::String(s)) => Ok(Some(s.clone())),
        Some(_) => Err(()),
    }
}

/// Reads a member that may be absent, `null` or a list of optional strings.
fn decode_opt_nullable_list(obj: &JsonValue, key: &str) -> (r: Result<Option<Vec<Option<String>>>, ()>)
    ensures
        r is Ok <==> opt_nullable_list_ok(spec_get(*obj, key@)),
        r matches Ok(l) ==> match spec_index(*obj, key@) {
            JsonValue::Array(items) => l matches Some(v) && opt_strs(v@) == nullable_strings(items@),
            _ => l is None,
        },
{
    let items = match obj.get(key) {
        None => return Ok(None),
        Some(JsonValue::Null) => return Ok(None),
        Some(JsonValue::Array(items)) => items,
        Some(_) => return Err(()),
    };
    let mut out: Vec<Option<String>> = Vec::new();
    let mut i: usize = 0;
    while i < items.len()
        invariant
            0 <= i <= items@.len(),
            spec_get(*obj, key@) == Some(JsonValue::Array(*items)),
            forall|k: int| 0 <= k < i ==> (#[trigger] items@[k] is Null || items@[k] is String),
            opt_strs(out@) == nullable_strings(items@.take(i as int)),
        decreases items@.len() - i,
    {
        let ghost before = out@;
        match &items[i] {
            JsonValue::Null => {
                out.push(None);
            },
            JsonValue::String(s) => {
                out.push(Some(s.clone()));
            },
            _ => {
                return Err(());
            },
        }
        proof {
            assert(items@.take(i + 1) =~= items@.take(i as int).push(items@[i as int]));
            assert(opt_strs(out@) =~= opt_strs(before).push(nullable_strings(items@)[i as int]));
        }
        i += 1;
        assert(opt_strs(out@) =~= nullable_strings(items@.take(i as int)));
    }
    assert(items@.take(i as int) =~= items@);
    Ok(Some(out))
}

/// Reads a member that may be absent, `null` or a list of strings.
fn decode_opt_string_list(obj: &JsonValue, key: &str) -> (r: Result<Option<Vec<String>>, ()>)
    ensures
        r is Ok <==> opt_string_list_ok(spec_get(*obj, key@)),
        r matches Ok(l) ==> match spec_index(*obj, key@) {
            JsonValue::Array(items) => l matches Some(v) && strs(v@) == list_strings(items@),
            _ => l is None,
        },
{
    let items = match obj.get(key) {
        None => return Ok(None),
        Some(JsonValue::Null) => return Ok(None),
        Some(JsonValue::Array(items)) => items,
        Some(_) => return Err(()),
    };
    let mut out: Vec<String> = Vec::new();
    let mut i: usize = 0;
    while i < items.len()
        invariant
            0 <= i <= items@.len(),
            spec_get(*obj, key@) == Some(JsonValue::Array(*items)),
            forall|k: int| 0 <= k < i ==> #[trigger] items@[k] is String,
            strs(out@) == list_strings(items@.take(i as int)),
        decreases items@.len() - i,
    {
        let ghost before = out@;
        match &items[i] {
            JsonValue::String(s) => {
                out.push(s.clone());
            },
            _ => {
                return Err(());
            },
        }
        proof {
            assert(items@.take(i + 1) =~= items@.take(i as int).push(items@[i as int]));
            assert(strs(out@) =~= strs(before).push(list_strings(items@)[i as int]));
        }
        i += 1;
        assert(strs(out@) =~= list_strings(items@.take(i as int)));
    }
    assert(items@.take(i as int) =~= items@);
    Ok(Some(out))
}

/// The member `key` of `obj`, `Null` where there is none.
fn member<'a>(obj: &'a JsonValue, key: &str, null: &'a JsonValue) -> (r: &'a JsonValue)
    requires
        *null is Null,
    ensures
        *r == spec_index(*obj, key@),
{
    match obj.get(key) {
        Some(v) => v,
        None => null,
    }
}

/// Decodes the documentation section.
fn decode_docs(v: &JsonValue) -> (r: Result<Option<ExtDocs>, ()>)
    ensures
        r is Ok <==> docs_ok(if *v is Null { None } else { Some(*v) }),
        r matches Ok(d) ==> (d is Some <==> *v is Object) && (d matches Some(d) ==> {
            &&& opt_chars(d.main) == spec_str_at(*v, "main"@)
            &&& opt_chars(d.const_value) == spec_str_at(*v, "constValue"@)
            &&& opt_chars(d.default_value) == spec_str_at(*v, "defaultValue"@)
            &&& match spec_index(*v, "enumValues"@) {
                JsonValue::Array(items) => d.enum_values matches Some(e) && opt_strs(e@)
                    == nullable_strings(items@),
                _ => d.enum_values is None,
            }
        }),
{
    match v {
        JsonValue::Null => Ok(None),
        JsonValue::Object(_) => {
            let main = decode_opt_string(v, "main")?;
            let const_value = decode_opt_string(v, "constValue")?;
            let default_value = decode_opt_string(v, "defaultValue")?;
            let enum_values = decode_opt_nullable_list(v, "enumValues")?;
            Ok(Some(ExtDocs { main, const_value, default_value, enum_values }))
        },
        _ => Err(()),
    }
}

/// Decodes the links section.
fn decode_links(v: &JsonValue) -> (r: Result<Option<ExtLinks>, ()>)
    ensures
        r is Ok <==> links_ok(if *v is Null { None } else { Some(*v) }),
        r matches Ok(l) ==> (l is Some <==> *v is Object) && (l matches Some(l) ==> {
            &&& opt_chars(l.key) == spec_str_at(*v, "key"@)
            &&& match spec_index(*v, "enumValues"@) {
                JsonValue::Array(items) => l.enum_values matches Some(e) && opt_strs(e@)
                    == nullable_strings(items@),
                _ => l.enum_values is None,
            }
        }),
{
    match v {
        JsonValue::Null => Ok(None),
        JsonValue::Object(_) => {
            let key = decode_opt_string(v, "key")?;
            let enum_values = decode_opt_nullable_list(v, "enumValues")?;
            Ok(Some(ExtLinks { key, enum_values }))
        },
        _ => Err(()),
    }
}

/// What a decoded extension holds, read from the extension object `x`.
pub open spec fn ext_matches(e: SchemaExt, x: JsonValue) -> bool {
    &&& match spec_index(x, "docs"@) {
        JsonValue::Object(_) => e.docs matches Some(d) && {
            let dv = spec_index(x, "docs"@);
            &&& opt_chars(d.main) == spec_str_at(dv, "main"@)
            &&& opt_chars(d.const_value) == spec_str_at(dv, "constValue"@)
            &&& opt_chars(d.default_value) == spec_str_at(dv, "defaultValue"@)
            &&& match spec_index(dv, "enumValues"@) {
                JsonValue::Array(items) => d.enum_values matches Some(ev) && opt_strs(ev@)
                    == nullable_strings(items@),
                _ => d.enum_values is None,
            }
        },
        _ => e.docs is None,
    }
    &&& match spec_index(x, "links"@) {
        JsonValue::Object(_) => e.links matches Some(l) && {
            let lv = spec_index(x, "links"@);
            &&& opt_chars(l.key) == spec_str_at(lv, "key"@)
            &&& match spec_index(lv, "enumValues"@) {
                JsonValue::Array(items) => l.enum_values matches Some(ev) && opt_strs(ev@)
                    == nullable_strings(items@),
                _ => l.enum_values is None,
            }
        },
        _ => e.links is None,
    }
    &&& match spec_index(x, "initKeys"@) {
        JsonValue::Array(items) => e.init_keys matches Some(k) && strs(k@) == list_strings(items@),
        _ => e.init_keys is None,
    }
}

/// Taplo's extension of a schema: its `x-taplo` object decoded, or nothing
/// when the schema has none, when it is not an object, or when one of the
/// members it knows has the wrong shape. Members it does not know are
/// ignored.
pub fn schema_ext_of(schema: &JsonValue) -> (r: Option<SchemaExt>)
    ensures
        r is Some <==> spec_ext(*schema) is Some,
        r matches Some(e) ==> ext_matches(e, spec_ext(*schema)->0),
{
    let x = match schema.get("x-taplo") {
        Some(x) => x,
        None => return None,
    };
    if x.as_object().is_none() {
        return None;
    }
    let null = JsonValue::Null;
    let docs = match decode_docs(member(x, "docs", &null)) {
        Ok(d) => d,
        Err(()) => return None,
    };
    let links = match decode_links(member(x, "links", &null)) {
        Ok(l) => l,
        Err(()) => return None,
    };
    let init_keys = match decode_opt_string_list(x, "initKeys") {
        Ok(k) => k,
        Err(()) => return None,
    };
    Some(SchemaExt { docs, links, init_keys })
}

} // verus!
