use vstd::prelude::*;

use crate::hover::Fact;
use crate::json::{
    spec_as_number, spec_as_str, spec_get, spec_index, spec_number_eq, spec_number_text,
    spec_str_at, JsonNumber, JsonValue,
};
use crate::ext::{opt_chars, schema_ext_of, spec_ext_str};
use crate::text::str_equals;
use crate::markdown::strs;

verus! {

/// A fact as a reader sees it: its label and its values.
pub open spec fn fact_view(f: Fact) -> (Seq<char>, Seq<Seq<char>>) {
    (f.label@, strs(f.values@))
}

/// What a renderer of TOML literals may return for `value`.
pub open spec fn literal_of<F: Fn(&JsonValue) -> Option<String>>(
    render: F,
    value: JsonValue,
    out: Option<String>,
) -> bool {
    call_ensures(render, (&value,), out)
}


/// A fact's view, when there is one, as a sequence of zero or one.
pub open spec fn opt_fact(f: Option<(Seq<char>, Seq<Seq<char>>)>) -> Seq<(Seq<char>, Seq<Seq<char>>)> {
    match f {
        Some(v) => seq![v],
        None => Seq::empty(),
    }
}

/// The views of `facts`, in order.
pub open spec fn fact_views(facts: Seq<Fact>) -> Seq<(Seq<char>, Seq<Seq<char>>)> {
    facts.map_values(|f: Fact| fact_view(f))
}

/// The view of an optional fact.
pub open spec fn opt_view(f: Option<Fact>) -> Option<(Seq<char>, Seq<Seq<char>>)> {
    match f {
        Some(f) => Some(fact_view(f)),
        None => None,
    }
}

pub proof fn lemma_fact_views_push(old: Seq<Fact>, f: Fact)
    ensures
        fact_views(old.push(f)) == fact_views(old).push(fact_view(f)),
{
    assert(fact_views(old.push(f)) =~= fact_views(old).push(fact_view(f)));
}

/// Appends a fact when there is one.
pub fn extend_fact(facts: &mut Vec<Fact>, f: Option<Fact>)
    ensures
        fact_views(final(facts)@) == fact_views(old(facts)@) + opt_fact(opt_view(f)),
{
    match f {
        Some(f) => {
            let ghost before = facts@;
            facts.push(f);
            proof {
                lemma_fact_views_push(before, f);
                assert(fact_views(before).push(fact_view(f)) =~= fact_views(before) + opt_fact(
                    opt_view(Some(f)),
                ));
            }
        },
        None => {
            assert(fact_views(facts@) =~= fact_views(facts@) + opt_fact(opt_view(f)));
        },
    }
}

/// Reads a boolean annotation, which counts only when written as `true`.
pub open spec fn spec_flag(schema: JsonValue, keyword: Seq<char>) -> bool {
    spec_index(schema, keyword) == JsonValue::Bool(true)
}

/// Reads a boolean annotation, which counts only when written as `true`.
///
/// The keyword is defined as a boolean, so any other shape is a schema the
/// specification does not describe and Taplo declines to guess at.
pub fn flag(schema: &JsonValue, keyword: &str) -> (r: bool)
    ensures
        r == spec_flag(*schema, keyword@),
{
    match schema.get(keyword) {
        Some(v) => match v.as_bool() {
            Some(b) => b,
            None => false,
        },
        None => false,
    }
}

/// Whether the schema marks its key as deprecated.
pub fn is_deprecated(schema: &JsonValue) -> (r: bool)
    ensures
        r == spec_flag(*schema, "deprecated"@),
{
    flag(schema, "deprecated")
}

/// One end of a range: the bound and whether the schema excludes it.
#[derive(Debug)]
pub struct Bound {
    pub value: JsonNumber,
    pub exclusive: bool,
}

/// The comparison a reader sees: the operator for this side, a space, and
/// the bound.
pub open spec fn spec_bound_text(b: Bound, inclusive: Seq<char>, exclusive: Seq<char>) -> Seq<char> {
    (if b.exclusive {
        exclusive
    } else {
        inclusive
    }) + " "@ + spec_number_text(b.value)
}

impl Bound {
    /// The comparison a reader sees, given the operators for this side.
    pub fn render(&self, inclusive: &str, exclusive: &str) -> (r: String)
        ensures
            r@ == spec_bound_text(*self, inclusive@, exclusive@),
    {
        let operator = if self.exclusive {
            exclusive
        } else {
            inclusive
        };
        let mut r = operator.to_owned();
        r.append(" ");
        let n = self.value.to_text();
        r.append(n.as_str());
        r
    }
}

/// The rendered comparisons of `bounds`.
pub open spec fn bound_texts(bounds: Seq<Bound>, inclusive: Seq<char>, exclusive: Seq<char>) -> Seq<
    Seq<char>,
> {
    bounds.map_values(|b: Bound| spec_bound_text(b, inclusive, exclusive))
}

/// The bounds on a quantity as one fact: nothing without bounds; the bare
/// value for exactly one inclusive bound on each side with equal values; else
/// every lower bound and then every upper bound as a comparison.
pub open spec fn spec_bounds_fact(label: Seq<char>, lower: Seq<Bound>, upper: Seq<Bound>) -> Option<
    (Seq<char>, Seq<Seq<char>>),
> {
    if lower.len() == 0 && upper.len() == 0 {
        None
    } else if lower.len() == 1 && upper.len() == 1 && !lower[0].exclusive && !upper[0].exclusive
        && spec_number_eq(lower[0].value, upper[0].value) {
        Some((label, seq![spec_number_text(lower[0].value)]))
    } else {
        Some((label, bound_texts(lower, ">="@, ">"@) + bound_texts(upper, "<="@, "<"@)))
    }
}

pub proof fn lemma_strs_push_str(old: Seq<String>, x: String)
    ensures
        strs(old.push(x)) == strs(old).push(x@),
{
    assert(strs(old.push(x)) =~= strs(old).push(x@));
}

/// Renders each bound with the operators for its side, after `values`.
fn push_bound_texts(values: &mut Vec<String>, bounds: &Vec<Bound>, inclusive: &str, exclusive: &str)
    ensures
        strs(final(values)@) == strs(old(values)@) + bound_texts(bounds@, inclusive@, exclusive@),
{
    let mut i: usize = 0;
    assert(strs(values@) =~= strs(old(values)@) + bound_texts(bounds@.take(0), inclusive@, exclusive@));
    while i < bounds.len()
        invariant
            0 <= i <= bounds@.len(),
            strs(values@) == strs(old(values)@) + bound_texts(
                bounds@.take(i as int),
                inclusive@,
                exclusive@,
            ),
        decreases bounds@.len() - i,
    {
        let t = bounds[i].render(inclusive, exclusive);
        let ghost before = values@;
        values.push(t);
        proof {
            lemma_strs_push_str(before, t);
        }
        i += 1;
        assert(strs(values@) =~= strs(old(values)@) + bound_texts(
            bounds@.take(i as int),
            inclusive@,
            exclusive@,
        ));
    }
    assert(bounds@.take(i as int) =~= bounds@);
}

/// Renders the bounds on a quantity as one fact, so that a lower and an upper
/// bound share a line rather than taking one each.
///
/// A pair of inclusive bounds on the same value collapses to the bare value,
/// which is how a fixed size reads best. The collapse needs exactly one bound
/// per side, since a schema writing two bounds on one side has stated two
/// separate comparisons.
pub fn bounds_fact(label: &'static str, lower: Vec<Bound>, upper: Vec<Bound>) -> (r: Option<Fact>)
    ensures
        opt_view(r) == spec_bounds_fact(label@, lower@, upper@),
{
    if lower.len() == 0 && upper.len() == 0 {
        return None;
    }
    if lower.len() == 1 && upper.len() == 1 {
        let low = &lower[0];
        let high = &upper[0];
        if !low.exclusive && !high.exclusive && low.value.equals(&high.value) {
            let t = low.value.to_text();
            let values = vec![t];
            assert(strs(values@) =~= seq![t@]);
            return Some(Fact { label, values });
        }
    }
    let mut values: Vec<String> = Vec::new();
    push_bound_texts(&mut values, &lower, ">=", ">");
    push_bound_texts(&mut values, &upper, "<=", "<");
    assert(strs(values@) =~= bound_texts(lower@, ">="@, ">"@) + bound_texts(upper@, "<="@, "<"@));
    Some(Fact { label, values })
}

/// The bound the member `keyword` states when it is a number, as a sequence
/// of zero or one.
pub open spec fn number_bound(schema: JsonValue, keyword: Seq<char>, exclusive: bool) -> Seq<Bound> {
    match spec_as_number(spec_index(schema, keyword)) {
        Some(n) => seq![Bound { value: n, exclusive }],
        None => Seq::empty(),
    }
}

/// One side of a numeric range: the inclusive keyword's number, exclusive
/// when the exclusive keyword is `true`, then the exclusive keyword's number.
pub open spec fn spec_numeric_bounds(schema: JsonValue, inclusive: Seq<char>, exclusive: Seq<char>) -> Seq<
    Bound,
> {
    number_bound(schema, inclusive, spec_flag(schema, exclusive)) + number_bound(
        schema,
        exclusive,
        true,
    )
}

/// The number the member `keyword` holds, if it is one.
pub fn number_at<'a>(schema: &'a JsonValue, keyword: &str) -> (r: Option<&'a JsonNumber>)
    ensures
        match r {
            Some(n) => spec_as_number(spec_index(*schema, keyword@)) == Some(*n),
            None => spec_as_number(spec_index(*schema, keyword@)) is None,
        },
{
    match schema.get(keyword) {
        Some(v) => v.as_number(),
        None => None,
    }
}

/// The string the member `keyword` holds, if it is one.
pub fn str_at<'a>(schema: &'a JsonValue, keyword: &str) -> (r: Option<&'a str>)
    ensures
        match r {
            Some(s) => spec_str_at(*schema, keyword@) == Some(s@),
            None => spec_str_at(*schema, keyword@) is None,
        },
{
    match schema.get(keyword) {
        Some(v) => v.as_str(),
        None => None,
    }
}

/// Reads one side of a numeric range.
///
/// Both spellings of an exclusive bound are honored, told apart by shape: a
/// number in the exclusive keyword is the bound itself, while a boolean beside
/// the inclusive keyword is draft 4's modifier on that bound. A schema may
/// write both, and both render.
pub fn numeric_bounds(schema: &JsonValue, inclusive: &str, exclusive: &str) -> (r: Vec<Bound>)
    ensures
        r@ == spec_numeric_bounds(*schema, inclusive@, exclusive@),
{
    let mut bounds: Vec<Bound> = Vec::new();
    if let Some(value) = number_at(schema, inclusive) {
        bounds.push(Bound { value: value.clone(), exclusive: flag(schema, exclusive) });
    }
    if let Some(value) = number_at(schema, exclusive) {
        bounds.push(Bound { value: value.clone(), exclusive: true });
    }
    assert(bounds@ =~= spec_numeric_bounds(*schema, inclusive@, exclusive@));
    bounds
}

/// The range a numeric schema admits.
pub open spec fn spec_range_fact(schema: JsonValue) -> Option<(Seq<char>, Seq<Seq<char>>)> {
    spec_bounds_fact(
        "Range"@,
        spec_numeric_bounds(schema, "minimum"@, "exclusiveMinimum"@),
        spec_numeric_bounds(schema, "maximum"@, "exclusiveMaximum"@),
    )
}

/// The range a numeric schema admits.
pub fn range_fact(schema: &JsonValue) -> (r: Option<Fact>)
    ensures
        opt_view(r) == spec_range_fact(*schema),
{
    bounds_fact(
        "Range",
        numeric_bounds(schema, "minimum", "exclusiveMinimum"),
        numeric_bounds(schema, "maximum", "exclusiveMaximum"),
    )
}

/// The step a numeric schema admits.
pub open spec fn spec_multiple_of_fact(schema: JsonValue) -> Option<(Seq<char>, Seq<Seq<char>>)> {
    match spec_as_number(spec_index(schema, "multipleOf"@)) {
        Some(n) => Some(("Multiple of"@, seq![spec_number_text(n)])),
        None => None,
    }
}

/// The step a numeric schema admits.
pub fn multiple_of_fact(schema: &JsonValue) -> (r: Option<Fact>)
    ensures
        opt_view(r) == spec_multiple_of_fact(*schema),
{
    match number_at(schema, "multipleOf") {
        Some(n) => {
            let t = n.to_text();
            let values = vec![t];
            assert(strs(values@) =~= seq![t@]);
            Some(Fact { label: "Multiple of", values })
        },
        None => None,
    }
}

/// Reads a keyword that bounds a size or a count, which no draft spells as
/// exclusive: its number as an inclusive bound, as a sequence of zero or one.
pub fn inclusive_bounds(schema: &JsonValue, keyword: &str) -> (r: Vec<Bound>)
    ensures
        r@ == number_bound(*schema, keyword@, false),
{
    let mut bounds: Vec<Bound> = Vec::new();
    if let Some(value) = number_at(schema, keyword) {
        bounds.push(Bound { value: value.clone(), exclusive: false });
    }
    assert(bounds@ =~= number_bound(*schema, keyword@, false));
    bounds
}

/// A fact whose only value is the non-empty string the member `keyword`
/// states verbatim.
pub open spec fn spec_string_fact(schema: JsonValue, label: Seq<char>, keyword: Seq<char>) -> Option<
    (Seq<char>, Seq<Seq<char>>),
> {
    match spec_str_at(schema, keyword) {
        Some(s) => if s.len() > 0 {
            Some((label, seq![s]))
        } else {
            None
        },
        None => None,
    }
}

/// A fact whose only value is a string the schema states verbatim, such as a
/// regular expression or a format name.
///
/// An empty string constrains nothing, and an empty code span is not a code
/// span, so it contributes no fact.
pub fn string_fact(schema: &JsonValue, label: &'static str, keyword: &str) -> (r: Option<Fact>)
    ensures
        opt_view(r) == spec_string_fact(*schema, label@, keyword@),
{
    match str_at(schema, keyword) {
        Some(s) => {
            if s.unicode_len() == 0 {
                return None;
            }
            let t = s.to_owned();
            let values = vec![t];
            assert(strs(values@) =~= seq![t@]);
            Some(Fact { label, values })
        },
        None => None,
    }
}

/// Whether a declared type name admits instances of `wanted`: the same name,
/// or `integer` where `number` is wanted.
pub open spec fn type_matches(declared: Seq<char>, wanted: Seq<char>) -> bool {
    declared == wanted || (wanted == "number"@ && declared == "integer"@)
}

/// The strings among `items`, in order.
pub open spec fn string_items(items: Seq<JsonValue>) -> Seq<Seq<char>>
    decreases items.len(),
{
    if items.len() == 0 {
        Seq::empty()
    } else {
        let rest = string_items(items.drop_last());
        match items.last() {
            JsonValue::String(s) => rest.push(s@),
            _ => rest,
        }
    }
}

/// Whether a schema's declared `type` admits instances of `wanted`: a name
/// that matches, a list naming no type or naming one that matches, or no
/// type in a shape the specification describes.
pub open spec fn spec_admits_type(schema: JsonValue, wanted: Seq<char>) -> bool {
    match spec_index(schema, "type"@) {
        JsonValue::String(declared) => type_matches(declared@, wanted),
        JsonValue::Array(items) => {
            let named = string_items(items@);
            named.len() == 0 || exists|i: int| 0 <= i < named.len() && type_matches(#[trigger] named[i], wanted)
        },
        _ => true,
    }
}

fn type_matches_exec(declared: &str, wanted: &str) -> (r: bool)
    ensures
        r == type_matches(declared@, wanted@),
{
    str_equals(declared, wanted) || (str_equals(wanted, "number") && str_equals(declared, "integer"))
}

/// Whether a schema's declared `type` admits instances of `wanted`, and so
/// whether a keyword constraining `wanted` can ever fire.
///
/// Every constraint keyword is defined conditionally on the instance type, so
/// one written against a type the schema does not admit is vacuous and hover
/// leaves it out. A schema that declares no type, or declares one in a shape
/// the specification does not describe, admits everything: the author wrote
/// the keyword, and hover has nothing better to go on.
pub fn admits_type(schema: &JsonValue, wanted: &str) -> (r: bool)
    ensures
        r == spec_admits_type(*schema, wanted@),
{
    let declared = match schema.get("type") {
        Some(d) => d,
        None => return true,
    };
    match declared {
        JsonValue::String(d) => type_matches_exec(d.as_str(), wanted),
        JsonValue::Array(items) => {
            assert(spec_index(*schema, "type"@) == JsonValue::Array(*items));
            let mut any_named = false;
            let mut i: usize = 0;
            while i < items.len()
                invariant
                    0 <= i <= items@.len(),
                    spec_index(*schema, "type"@) == JsonValue::Array(*items),
                    any_named == (string_items(items@.take(i as int)).len() > 0),
                    forall|j: int|
                        0 <= j < string_items(items@.take(i as int)).len() ==> !type_matches(
                            #[trigger] string_items(items@.take(i as int))[j],
                            wanted@,
                        ),
                decreases items@.len() - i,
            {
                assert(items@.take(i + 1).drop_last() =~= items@.take(i as int));
                match &items[i] {
                    JsonValue::String(d) => {
                        if type_matches_exec(d.as_str(), wanted) {
                            proof {
                                let named = string_items(items@.take(i + 1));
                                assert(named[named.len() - 1] == d@);
                                lemma_string_items_prefix(items@, i + 1);
                                let full = string_items(items@);
                                assert(full[named.len() - 1] == d@);
                                assert(type_matches(full[named.len() - 1], wanted@));
                            }
                            return true;
                        }
                        any_named = true;
                    },
                    _ => {},
                }
                i += 1;
            }
            assert(items@.take(i as int) =~= items@);
            !any_named
        },
        _ => true,
    }
}

/// The strings of a prefix are a prefix of the strings of the whole.
proof fn lemma_string_items_prefix(items: Seq<JsonValue>, k: int)
    requires
        0 <= k <= items.len(),
    ensures
        string_items(items.take(k)).len() <= string_items(items).len(),
        forall|j: int|
            0 <= j < string_items(items.take(k)).len() ==> #[trigger] string_items(items.take(k))[j]
                == string_items(items)[j],
    decreases items.len(),
{
    if k < items.len() {
        assert(items.drop_last().take(k) =~= items.take(k));
        lemma_string_items_prefix(items.drop_last(), k);
    } else {
        assert(items.take(k) =~= items);
    }
}

/// The numeric group: range and step, where the type admits numbers.
pub open spec fn numeric_group(schema: JsonValue) -> Seq<(Seq<char>, Seq<Seq<char>>)> {
    if spec_admits_type(schema, "number"@) {
        opt_fact(spec_range_fact(schema)) + opt_fact(spec_multiple_of_fact(schema))
    } else {
        Seq::empty()
    }
}

/// The string group: length, pattern, format, media type and encoding, where
/// the type admits strings.
pub open spec fn string_group(schema: JsonValue) -> Seq<(Seq<char>, Seq<Seq<char>>)> {
    if spec_admits_type(schema, "string"@) {
        opt_fact(
            spec_bounds_fact(
                "Length"@,
                number_bound(schema, "minLength"@, false),
                number_bound(schema, "maxLength"@, false),
            ),
        ) + opt_fact(spec_string_fact(schema, "Pattern"@, "pattern"@)) + opt_fact(
            spec_string_fact(schema, "Format"@, "format"@),
        ) + opt_fact(spec_string_fact(schema, "Media type"@, "contentMediaType"@)) + opt_fact(
            spec_string_fact(schema, "Encoding"@, "contentEncoding"@),
        )
    } else {
        Seq::empty()
    }
}

/// The array group: item count and uniqueness, where the type admits arrays.
pub open spec fn array_group(schema: JsonValue) -> Seq<(Seq<char>, Seq<Seq<char>>)> {
    if spec_admits_type(schema, "array"@) {
        opt_fact(
            spec_bounds_fact(
                "Items"@,
                number_bound(schema, "minItems"@, false),
                number_bound(schema, "maxItems"@, false),
            ),
        ) + if spec_flag(schema, "uniqueItems"@) {
            seq![("Unique items"@, Seq::<Seq<char>>::empty())]
        } else {
            Seq::empty()
        }
    } else {
        Seq::empty()
    }
}

/// The object group: property count, where the type admits objects.
pub open spec fn object_group(schema: JsonValue) -> Seq<(Seq<char>, Seq<Seq<char>>)> {
    if spec_admits_type(schema, "object"@) {
        opt_fact(
            spec_bounds_fact(
                "Properties"@,
                number_bound(schema, "minProperties"@, false),
                number_bound(schema, "maxProperties"@, false),
            ),
        )
    } else {
        Seq::empty()
    }
}

/// The constraint keywords a schema states about its own value, in the order
/// hover lists them, each group only where the declared type admits the
/// instances it constrains.
pub open spec fn spec_constraint_facts(schema: JsonValue) -> Seq<(Seq<char>, Seq<Seq<char>>)> {
    numeric_group(schema) + string_group(schema) + array_group(schema) + object_group(schema)
}

/// A fact with a label and no values.
pub fn bare_fact(label: &'static str) -> (f: Fact)
    ensures
        fact_view(f) == (label@, Seq::<Seq<char>>::empty()),
{
    let values: Vec<String> = Vec::new();
    assert(strs(values@) =~= Seq::<Seq<char>>::empty());
    Fact { label, values }
}

fn push_numeric_group(facts: &mut Vec<Fact>, schema: &JsonValue)
    ensures
        fact_views(final(facts)@) == fact_views(old(facts)@) + numeric_group(*schema),
{
    if admits_type(schema, "number") {
        extend_fact(facts, range_fact(schema));
        extend_fact(facts, multiple_of_fact(schema));
        assert(fact_views(facts@) =~= fact_views(old(facts)@) + numeric_group(*schema));
    } else {
        assert(fact_views(facts@) =~= fact_views(old(facts)@) + numeric_group(*schema));
    }
}

fn push_string_group(facts: &mut Vec<Fact>, schema: &JsonValue)
    ensures
        fact_views(final(facts)@) == fact_views(old(facts)@) + string_group(*schema),
{
    if admits_type(schema, "string") {
        extend_fact(
            facts,
            bounds_fact(
                "Length",
                inclusive_bounds(schema, "minLength"),
                inclusive_bounds(schema, "maxLength"),
            ),
        );
        extend_fact(facts, string_fact(schema, "Pattern", "pattern"));
        extend_fact(facts, string_fact(schema, "Format", "format"));
        extend_fact(facts, string_fact(schema, "Media type", "contentMediaType"));
        extend_fact(facts, string_fact(schema, "Encoding", "contentEncoding"));
        assert(fact_views(facts@) =~= fact_views(old(facts)@) + string_group(*schema));
    } else {
        assert(fact_views(facts@) =~= fact_views(old(facts)@) + string_group(*schema));
    }
}

fn push_array_group(facts: &mut Vec<Fact>, schema: &JsonValue)
    ensures
        fact_views(final(facts)@) == fact_views(old(facts)@) + array_group(*schema),
{
    if admits_type(schema, "array") {
        extend_fact(
            facts,
            bounds_fact(
                "Items",
                inclusive_bounds(schema, "minItems"),
                inclusive_bounds(schema, "maxItems"),
            ),
        );
        let ghost mid = fact_views(facts@);
        if flag(schema, "uniqueItems") {
            extend_fact(facts, Some(bare_fact("Unique items")));
        } else {
            assert(fact_views(facts@) =~= mid + Seq::empty());
        }
        assert(fact_views(facts@) =~= fact_views(old(facts)@) + array_group(*schema));
    } else {
        assert(fact_views(facts@) =~= fact_views(old(facts)@) + array_group(*schema));
    }
}

fn push_object_group(facts: &mut Vec<Fact>, schema: &JsonValue)
    ensures
        fact_views(final(facts)@) == fact_views(old(facts)@) + object_group(*schema),
{
    if admits_type(schema, "object") {
        extend_fact(
            facts,
            bounds_fact(
                "Properties",
                inclusive_bounds(schema, "minProperties"),
                inclusive_bounds(schema, "maxProperties"),
            ),
        );
    } else {
        assert(fact_views(facts@) =~= fact_views(old(facts)@) + object_group(*schema));
    }
}

/// The constraint keywords a schema states about its own value, in the order
/// hover lists them.
///
/// Each group is filtered by the type its keywords constrain, so a keyword
/// written against a type the schema does not admit is vacuous and left out.
pub fn constraint_facts(schema: &JsonValue) -> (r: Vec<Fact>)
    ensures
        fact_views(r@) == spec_constraint_facts(*schema),
{
    let mut facts: Vec<Fact> = Vec::new();
    assert(fact_views(facts@) =~= Seq::empty());
    push_numeric_group(&mut facts, schema);
    push_string_group(&mut facts, schema);
    push_array_group(&mut facts, schema);
    push_object_group(&mut facts, schema);
    assert(fact_views(facts@) =~= spec_constraint_facts(*schema));
    facts
}

/// The names the member `type` declares: itself when a string, its strings
/// when a list.
pub open spec fn spec_type_names(schema: JsonValue) -> Seq<Seq<char>> {
    match spec_index(schema, "type"@) {
        JsonValue::String(name) => seq![name@],
        JsonValue::Array(items) => string_items(items@),
        _ => Seq::empty(),
    }
}

/// A fact labelled `label` listing `values`, or none for no values.
pub open spec fn list_fact(label: Seq<char>, values: Seq<Seq<char>>) -> Option<(Seq<char>, Seq<Seq<char>>)> {
    if values.len() > 0 {
        Some((label, values))
    } else {
        None
    }
}

/// The strings among `items`, copied in order.
pub fn collect_strings(items: &Vec<JsonValue>) -> (r: Vec<String>)
    ensures
        strs(r@) == string_items(items@),
{
    let mut r: Vec<String> = Vec::new();
    let mut i: usize = 0;
    while i < items.len()
        invariant
            0 <= i <= items@.len(),
            strs(r@) == string_items(items@.take(i as int)),
        decreases items@.len() - i,
    {
        assert(items@.take(i + 1).drop_last() =~= items@.take(i as int));
        match &items[i] {
            JsonValue::String(s) => {
                let t = s.clone();
                let ghost before = r@;
                r.push(t);
                proof {
                    lemma_strs_push_str(before, t);
                }
            },
            _ => {},
        }
        i += 1;
    }
    assert(items@.take(i as int) =~= items@);
    r
}

/// The types a subschema admits.
pub fn type_fact(schema: &JsonValue) -> (r: Option<Fact>)
    ensures
        opt_view(r) == list_fact("Type"@, spec_type_names(*schema)),
{
    let values: Vec<String> = match schema.get("type") {
        Some(JsonValue::String(name)) => {
            let v = vec![name.clone()];
            assert(strs(v@) =~= seq![name@]);
            v
        },
        Some(JsonValue::Array(items)) => collect_strings(items),
        _ => {
            let v: Vec<String> = Vec::new();
            assert(strs(v@) =~= Seq::<Seq<char>>::empty());
            v
        },
    };
    if values.len() > 0 {
        Some(Fact { label: "Type", values })
    } else {
        None
    }
}

/// The strings the member `required` lists, when it is a list.
pub open spec fn spec_required_names(schema: JsonValue) -> Option<Seq<Seq<char>>> {
    match spec_index(schema, "required"@) {
        JsonValue::Array(items) => Some(string_items(items@)),
        _ => None,
    }
}

/// The keys a subschema demands.
pub fn required_fact(schema: &JsonValue) -> (r: Option<Fact>)
    ensures
        opt_view(r) == match spec_required_names(*schema) {
            Some(names) => list_fact("Required"@, names),
            None => None,
        },
{
    let items = match schema.get("required") {
        Some(JsonValue::Array(items)) => items,
        _ => return None,
    };
    let values = collect_strings(items);
    if values.len() > 0 {
        Some(Fact { label: "Required", values })
    } else {
        None
    }
}

/// `outs` is what a renderer may give for `values`, one after another, the
/// values it declines left out.
pub open spec fn literals_of<F: Fn(&JsonValue) -> Option<String>>(
    render: F,
    values: Seq<JsonValue>,
    outs: Seq<Seq<char>>,
) -> bool
    decreases values.len(),
{
    if values.len() == 0 {
        outs.len() == 0
    } else {
        exists|out: Option<String>|
            #[trigger] literal_of(render, values.last(), out) && match out {
                Some(s) => outs.len() > 0 && outs.last() == s@ && literals_of(
                    render,
                    values.drop_last(),
                    outs.drop_last(),
                ),
                None => literals_of(render, values.drop_last(), outs),
            }
    }
}

/// The literals a renderer gives for `values`, the declined ones left out.
fn render_all<F: Fn(&JsonValue) -> Option<String>>(values: &Vec<JsonValue>, render: &F) -> (r: Vec<String>)
    requires
        forall|v: &JsonValue| call_requires(*render, (v,)),
    ensures
        literals_of(*render, values@, strs(r@)),
{
    let mut r: Vec<String> = Vec::new();
    let mut i: usize = 0;
    assert(strs(r@) =~= Seq::<Seq<char>>::empty());
    while i < values.len()
        invariant
            0 <= i <= values@.len(),
            forall|v: &JsonValue| call_requires(*render, (v,)),
            literals_of(*render, values@.take(i as int), strs(r@)),
        decreases values@.len() - i,
    {
        let out = render(&values[i]);
        let ghost before = r@;
        let ghost prefix = values@.take(i + 1);
        assert(prefix.drop_last() =~= values@.take(i as int));
        assert(prefix.last() == values@[i as int]);
        match out {
            Some(s) => {
                r.push(s);
                proof {
                    lemma_strs_push_str(before, s);
                    assert(strs(r@).drop_last() =~= strs(before));
                    assert(literal_of(*render, prefix.last(), out));
                }
            },
            None => {
                assert(literal_of(*render, prefix.last(), out));
            },
        }
        i += 1;
    }
    assert(values@.take(i as int) =~= values@);
    r
}

/// The fact a single literal makes: labelled `label`, valued by what the
/// renderer gives for the member `key`; none when the member is absent, when
/// `skip_null` and it is `null`, or when the renderer declines it.
pub open spec fn single_literal_fact_rel<F: Fn(&JsonValue) -> Option<String>>(
    render: F,
    schema: JsonValue,
    key: Seq<char>,
    label: Seq<char>,
    skip_null: bool,
    out: Option<(Seq<char>, Seq<Seq<char>>)>,
) -> bool {
    match spec_get(schema, key) {
        None => out is None,
        Some(v) => if skip_null && v is Null {
            out is None
        } else {
            exists|lit: Option<String>|
                #[trigger] literal_of(render, v, lit) && out == match lit {
                    Some(s) => Some((label, seq![s@])),
                    None => None,
                }
        },
    }
}

/// The fact a list of literals makes: labelled `label`, valued by what the
/// renderer gives for each element of the array member `key`, the declined
/// ones left out; none when the member is not an array or nothing renders.
pub open spec fn list_literal_fact_rel<F: Fn(&JsonValue) -> Option<String>>(
    render: F,
    schema: JsonValue,
    key: Seq<char>,
    label: Seq<char>,
    out: Option<(Seq<char>, Seq<Seq<char>>)>,
) -> bool {
    match spec_index(schema, key) {
        JsonValue::Array(items) => exists|outs: Seq<Seq<char>>|
            #[trigger] literals_of(render, items@, outs) && out == list_fact(label, outs),
        _ => out is None,
    }
}

/// Renders the member `key` as a single-literal fact.
fn single_literal_fact<F: Fn(&JsonValue) -> Option<String>>(
    schema: &JsonValue,
    key: &str,
    label: &'static str,
    skip_null: bool,
    render: &F,
) -> (r: Option<Fact>)
    requires
        forall|v: &JsonValue| call_requires(*render, (v,)),
    ensures
        single_literal_fact_rel(*render, *schema, key@, label@, skip_null, opt_view(r)),
{
    let value = match schema.get(key) {
        Some(v) => v,
        None => return None,
    };
    if skip_null && value.is_null() {
        return None;
    }
    let lit = render(value);
    assert(literal_of(*render, *value, lit));
    match lit {
        Some(literal) => {
            let values = vec![literal];
            assert(strs(values@) =~= seq![literal@]);
            Some(Fact { label, values })
        },
        None => None,
    }
}

/// Renders the array member `key` as a list-of-literals fact.
fn list_literal_fact<F: Fn(&JsonValue) -> Option<String>>(
    schema: &JsonValue,
    key: &str,
    label: &'static str,
    render: &F,
) -> (r: Option<Fact>)
    requires
        forall|v: &JsonValue| call_requires(*render, (v,)),
    ensures
        list_literal_fact_rel(*render, *schema, key@, label@, opt_view(r)),
{
    let items = match schema.get(key) {
        Some(JsonValue::Array(items)) => items,
        _ => return None,
    };
    let values = render_all(items, render);
    assert(literals_of(*render, items@, strs(values@)));
    if values.len() == 0 {
        return None;
    }
    Some(Fact { label, values })
}

/// Renders a schema's `default` as a TOML literal, so that hovering a key
/// shows the value the tool falls back to. An absent or `null` default, or
/// one with no TOML form, makes no fact.
pub fn default_fact<F: Fn(&JsonValue) -> Option<String>>(schema: &JsonValue, render: &F) -> (r: Option<Fact>)
    requires
        forall|v: &JsonValue| call_requires(*render, (v,)),
    ensures
        single_literal_fact_rel(*render, *schema, "default"@, "Default"@, true, opt_view(r)),
{
    single_literal_fact(schema, "default", "Default", true, render)
}

/// Renders a schema's `examples` as TOML literals, dropping any that is not a
/// TOML value so that one bad entry does not cost the reader the others.
pub fn examples_fact<F: Fn(&JsonValue) -> Option<String>>(schema: &JsonValue, render: &F) -> (r: Option<Fact>)
    requires
        forall|v: &JsonValue| call_requires(*render, (v,)),
    ensures
        list_literal_fact_rel(*render, *schema, "examples"@, "Examples"@, opt_view(r)),
{
    list_literal_fact(schema, "examples", "Examples", render)
}

/// The single value a subschema admits, as a TOML literal.
pub fn const_fact<F: Fn(&JsonValue) -> Option<String>>(schema: &JsonValue, render: &F) -> (r: Option<Fact>)
    requires
        forall|v: &JsonValue| call_requires(*render, (v,)),
    ensures
        single_literal_fact_rel(*render, *schema, "const"@, "Const"@, false, opt_view(r)),
{
    single_literal_fact(schema, "const", "Const", false, render)
}

/// The values a subschema admits, as TOML literals.
pub fn enum_fact<F: Fn(&JsonValue) -> Option<String>>(schema: &JsonValue, render: &F) -> (r: Option<Fact>)
    requires
        forall|v: &JsonValue| call_requires(*render, (v,)),
    ensures
        list_literal_fact_rel(*render, *schema, "enum"@, "One of"@, opt_view(r)),
{
    list_literal_fact(schema, "enum", "One of", render)
}


/// Keywords a nested block can show: the ones `subschema_facts` renders, and
/// annotations that constrain nothing.
///
/// An allowlist rather than a list of what to refuse, because the two go stale
/// in opposite directions. `subschema_facts` is one level deep, and an
/// incomplete requirement is merely incomplete where an incomplete prohibition
/// is wrong: a `not` over `properties` and `required` together forbids one
/// value of one key, and a block naming only the key would read as forbidding
/// the key. A keyword nobody has heard of yet costs a missing block.
pub open spec fn is_renderable_subschema_keyword(k: Seq<char>) -> bool {
    ||| k == "type"@
    ||| k == "const"@
    ||| k == "enum"@
    ||| k == "required"@
    ||| k == "minimum"@
    ||| k == "maximum"@
    ||| k == "exclusiveMinimum"@
    ||| k == "exclusiveMaximum"@
    ||| k == "multipleOf"@
    ||| k == "minLength"@
    ||| k == "maxLength"@
    ||| k == "pattern"@
    ||| k == "format"@
    ||| k == "contentMediaType"@
    ||| k == "contentEncoding"@
    ||| k == "minItems"@
    ||| k == "maxItems"@
    ||| k == "uniqueItems"@
    ||| k == "minProperties"@
    ||| k == "maxProperties"@
    ||| k == "title"@
    ||| k == "description"@
    ||| k == "markdownDescription"@
    ||| k == "$comment"@
    ||| k == "default"@
    ||| k == "examples"@
    ||| k == "deprecated"@
    ||| k == "readOnly"@
    ||| k == "writeOnly"@
    ||| k == "$id"@
    ||| k == "$schema"@
    ||| k == "definitions"@
    ||| k == "$defs"@
    ||| k == "x-taplo"@
}

/// Whether a nested block can show the keyword `k`.
pub fn renderable_subschema_keyword(k: &str) -> (r: bool)
    ensures
        r == is_renderable_subschema_keyword(k@),
{
    str_equals(k, "type") || str_equals(k, "const") || str_equals(k, "enum") || str_equals(k, "required") || str_equals(k, "minimum") || str_equals(k, "maximum") || str_equals(k, "exclusiveMinimum") || str_equals(k, "exclusiveMaximum") || str_equals(k, "multipleOf") || str_equals(k, "minLength") || str_equals(k, "maxLength") || str_equals(k, "pattern") || str_equals(k, "format") || str_equals(k, "contentMediaType") || str_equals(k, "contentEncoding") || str_equals(k, "minItems") || str_equals(k, "maxItems") || str_equals(k, "uniqueItems") || str_equals(k, "minProperties") || str_equals(k, "maxProperties") || str_equals(k, "title") || str_equals(k, "description") || str_equals(k, "markdownDescription") || str_equals(k, "$comment") || str_equals(k, "default") || str_equals(k, "examples") || str_equals(k, "deprecated") || str_equals(k, "readOnly") || str_equals(k, "writeOnly") || str_equals(k, "$id") || str_equals(k, "$schema") || str_equals(k, "definitions") || str_equals(k, "$defs") || str_equals(k, "x-taplo")
}

/// The keys demanded by the member `required`, as a fact.
pub open spec fn spec_required_fact(schema: JsonValue) -> Option<(Seq<char>, Seq<Seq<char>>)> {
    match spec_required_names(schema) {
        Some(names) => list_fact("Required"@, names),
        None => None,
    }
}

/// `facts`, or nothing when there are none.
pub open spec fn non_empty_facts(facts: Seq<(Seq<char>, Seq<Seq<char>>)>) -> Option<
    Seq<(Seq<char>, Seq<Seq<char>>)>,
> {
    if facts.len() > 0 {
        Some(facts)
    } else {
        None
    }
}

/// The facts a nested block shows for `schema`: for an object whose every
/// keyword a block can show, its type, const, enum, required keys and
/// constraints, when there is any; nothing otherwise.
pub open spec fn subschema_facts_rel<F: Fn(&JsonValue) -> Option<String>>(
    render: F,
    schema: JsonValue,
    out: Option<Seq<(Seq<char>, Seq<Seq<char>>)>>,
) -> bool {
    match schema {
        JsonValue::Object(entries) => if forall|i: int|
            0 <= i < entries@.len() ==> is_renderable_subschema_keyword(
                (#[trigger] entries@[i]).0@,
            ) {
            exists|c: Option<(Seq<char>, Seq<Seq<char>>)>, e: Option<(Seq<char>, Seq<Seq<char>>)>|
                #![trigger single_literal_fact_rel(render, schema, "const"@, "Const"@, false, c), list_literal_fact_rel(render, schema, "enum"@, "One of"@, e)]
                single_literal_fact_rel(render, schema, "const"@, "Const"@, false, c)
                    && list_literal_fact_rel(render, schema, "enum"@, "One of"@, e) && out
                    == non_empty_facts(
                    opt_fact(list_fact("Type"@, spec_type_names(schema))) + opt_fact(c) + opt_fact(e)
                        + opt_fact(spec_required_fact(schema)) + spec_constraint_facts(schema),
                )
        } else {
            out is None
        },
        _ => out is None,
    }
}

/// The views of the facts, when there are some.
pub open spec fn opt_facts_view(facts: Option<Vec<Fact>>) -> Option<Seq<(Seq<char>, Seq<Seq<char>>)>> {
    match facts {
        Some(v) => Some(fact_views(v@)),
        None => None,
    }
}

/// What a subschema states about itself, for a reader who has been told the
/// role it plays, or nothing when the block would be incomplete.
///
/// `type`, `const`, `enum` and `required` appear here and not among a schema's
/// own facts because a nested block has no other channel: at the top level the
/// written value shows its type, and `enum` and `const` reach the reader
/// through value completion and value hover.
pub fn subschema_facts<F: Fn(&JsonValue) -> Option<String>>(schema: &JsonValue, render: &F) -> (r: Option<Vec<Fact>>)
    requires
        forall|v: &JsonValue| call_requires(*render, (v,)),
    ensures
        subschema_facts_rel(*render, *schema, opt_facts_view(r)),
{
    let entries = match schema.as_object() {
        Some(entries) => entries,
        None => return None,
    };
    let mut i: usize = 0;
    while i < entries.len()
        invariant
            0 <= i <= entries@.len(),
            *schema == JsonValue::Object(*entries),
            forall|j: int| 0 <= j < i ==> is_renderable_subschema_keyword((#[trigger] entries@[j]).0@),
        decreases entries@.len() - i,
    {
        if !renderable_subschema_keyword(entries[i].0.as_str()) {
            assert(!is_renderable_subschema_keyword(entries@[i as int].0@));
            return None;
        }
        i += 1;
    }
    let mut facts: Vec<Fact> = Vec::new();
    assert(fact_views(facts@) =~= Seq::empty());
    extend_fact(&mut facts, type_fact(schema));
    let c = const_fact(schema, render);
    let ghost cv = opt_view(c);
    extend_fact(&mut facts, c);
    let e = enum_fact(schema, render);
    let ghost ev = opt_view(e);
    extend_fact(&mut facts, e);
    extend_fact(&mut facts, required_fact(schema));
    let rest = constraint_facts(schema);
    let ghost before = fact_views(facts@);
    let mut rest = rest;
    let ghost rest_views = fact_views(rest@);
    facts.append(&mut rest);
    proof {
        assert(fact_views(facts@) =~= before + rest_views);
        assert(fact_views(facts@) =~= opt_fact(list_fact("Type"@, spec_type_names(*schema)))
            + opt_fact(cv) + opt_fact(ev) + opt_fact(spec_required_fact(*schema))
            + spec_constraint_facts(*schema));
    }
    if facts.len() > 0 {
        Some(facts)
    } else {
        None
    }
}

/// The prose a schema offers for a key: `x-taplo.docs.main`, else
/// `markdownDescription`, else `description`, each only as a string.
pub open spec fn spec_schema_docs(schema: JsonValue) -> Option<Seq<char>> {
    match spec_ext_str(schema, "docs"@, "main"@) {
        Some(d) => Some(d),
        None => match spec_str_at(schema, "markdownDescription"@) {
            Some(d) => Some(d),
            None => spec_str_at(schema, "description"@),
        },
    }
}

/// The prose a schema offers for a key.
///
/// `x-taplo.docs.main` is Taplo's own override and outranks both standard
/// keywords; `markdownDescription` is the VS Code convention for rich text and
/// outranks the plain `description`. Every hover and completion documentation
/// Taplo emits is declared as markdown, so the richer text is always usable.
pub fn schema_docs(schema: &JsonValue) -> (r: Option<String>)
    ensures
        opt_chars(r) == spec_schema_docs(*schema),
{
    let ext_main = match schema_ext_of(schema) {
        Some(ext) => match ext.docs {
            Some(docs) => docs.main,
            None => None,
        },
        None => None,
    };
    if let Some(d) = ext_main {
        return Some(d);
    }
    if let Some(d) = str_at(schema, "markdownDescription") {
        return Some(d.to_owned());
    }
    match str_at(schema, "description") {
        Some(d) => Some(d.to_owned()),
        None => None,
    }
}

} // verus!
