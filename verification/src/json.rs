use vstd::prelude::*;

use crate::text::str_equals;

verus! {

/// A JSON number as `serde_json` holds it: a non-negative integer, a negative
/// integer, or a finite float. A float is carried by the text `serde_json`
/// prints for it and whether it is zero, which is all the logic here reads of
/// it.
#[derive(Debug)]
pub enum JsonNumber {
    PosInt(u64),
    /// How `serde_json` holds a negative integer. The type does not enforce
    /// the sign: the functions here read any value held this way, and
    /// compare it only with another `NegInt`.
    NegInt(i64),
    Float { text: String, zero: bool },
}

/// A JSON value. An object keeps its entries in iteration order. A parsed
/// document has each key of an object once; the type does not enforce it,
/// and a contract that needs it says so (`objects_have_distinct_keys`).
#[derive(Debug)]
pub enum JsonValue {
    Null,
    Bool(bool),
    Number(JsonNumber),
    String(String),
    Array(Vec<JsonValue>),
    Object(Vec<(String, JsonValue)>),
}

/// The value stored under `key` among `entries`, if any.
pub open spec fn entries_get(entries: Seq<(String, JsonValue)>, key: Seq<char>) -> Option<JsonValue>
    decreases entries.len(),
{
    if entries.len() == 0 {
        None
    } else if entries[0].0@ == key {
        Some(entries[0].1)
    } else {
        entries_get(entries.drop_first(), key)
    }
}

/// `value.get(key)`: the member `key` of an object, or `None` for an absent
/// key or a value that is not an object.
pub open spec fn spec_get(value: JsonValue, key: Seq<char>) -> Option<JsonValue> {
    match value {
        JsonValue::Object(entries) => entries_get(entries@, key),
        _ => None,
    }
}

/// `value[key]`: the member `key` of an object, `Null` where there is none.
pub open spec fn spec_index(value: JsonValue, key: Seq<char>) -> JsonValue {
    match spec_get(value, key) {
        Some(v) => v,
        None => JsonValue::Null,
    }
}

/// `value.as_str()`.
pub open spec fn spec_as_str(value: JsonValue) -> Option<Seq<char>> {
    match value {
        JsonValue::String(s) => Some(s@),
        _ => None,
    }
}

/// Whether the member `key` is a string, and which.
pub open spec fn spec_str_at(value: JsonValue, key: Seq<char>) -> Option<Seq<char>> {
    spec_as_str(spec_index(value, key))
}

/// The number `value` holds, if it is one.
pub open spec fn spec_as_number(value: JsonValue) -> Option<JsonNumber> {
    match value {
        JsonValue::Number(n) => Some(n),
        _ => None,
    }
}

/// Whether two numbers are equal as `serde_json` compares them: integers
/// by value within their kind, floats by value (so `0.0` equals `-0.0`), and
/// never an integer against a float.
pub open spec fn spec_number_eq(a: JsonNumber, b: JsonNumber) -> bool {
    match (a, b) {
        (JsonNumber::PosInt(x), JsonNumber::PosInt(y)) => x == y,
        (JsonNumber::NegInt(x), JsonNumber::NegInt(y)) => x == y,
        (JsonNumber::Float { text: t1, zero: z1 }, JsonNumber::Float { text: t2, zero: z2 }) => (
        z1 && z2) || t1@ == t2@,
        _ => false,
    }
}

/// The decimal digits of `n`.
pub open spec fn decimal(n: nat) -> Seq<char>
    decreases n,
{
    if n < 10 {
        seq![digit_char(n)]
    } else {
        decimal(n / 10).push(digit_char(n % 10))
    }
}

/// The character of a decimal digit.
pub open spec fn digit_char(d: nat) -> char {
    if d == 0 {
        '0'
    } else if d == 1 {
        '1'
    } else if d == 2 {
        '2'
    } else if d == 3 {
        '3'
    } else if d == 4 {
        '4'
    } else if d == 5 {
        '5'
    } else if d == 6 {
        '6'
    } else if d == 7 {
        '7'
    } else if d == 8 {
        '8'
    } else {
        '9'
    }
}

/// The text `serde_json` prints for a number.
pub open spec fn spec_number_text(n: JsonNumber) -> Seq<char> {
    match n {
        JsonNumber::PosInt(u) => decimal(u as nat),
        JsonNumber::NegInt(i) => if i < 0 {
            seq!['-'] + decimal((-i) as nat)
        } else {
            decimal(i as nat)
        },
        JsonNumber::Float { text, .. } => text@,
    }
}

fn digit_str(d: u64) -> (s: &'static str)
    requires
        d < 10,
    ensures
        s@ == seq![digit_char(d as nat)],
{
    proof {
        reveal_strlit("0");
        reveal_strlit("1");
        reveal_strlit("2");
        reveal_strlit("3");
        reveal_strlit("4");
        reveal_strlit("5");
        reveal_strlit("6");
        reveal_strlit("7");
        reveal_strlit("8");
        reveal_strlit("9");
    }
    if d == 0 {
        "0"
    } else if d == 1 {
        "1"
    } else if d == 2 {
        "2"
    } else if d == 3 {
        "3"
    } else if d == 4 {
        "4"
    } else if d == 5 {
        "5"
    } else if d == 6 {
        "6"
    } else if d == 7 {
        "7"
    } else if d == 8 {
        "8"
    } else {
        "9"
    }
}

/// Appends the decimal digits of `n`.
pub fn push_decimal(s: &mut String, n: u64)
    ensures
        final(s)@ == old(s)@ + decimal(n as nat),
    decreases n,
{
    if n < 10 {
        s.append(digit_str(n));
    } else {
        push_decimal(s, n / 10);
        s.append(digit_str(n % 10));
        assert(decimal(n as nat) == decimal((n / 10) as nat).push(digit_char((n % 10) as nat)));
        assert(final(s)@ =~= old(s)@ + decimal(n as nat));
    }
}

impl Clone for JsonNumber {
    fn clone(&self) -> (r: JsonNumber)
        ensures
            r == *self,
    {
        match self {
            JsonNumber::PosInt(u) => JsonNumber::PosInt(*u),
            JsonNumber::NegInt(i) => JsonNumber::NegInt(*i),
            JsonNumber::Float { text, zero } => JsonNumber::Float { text: text.clone(), zero: *zero },
        }
    }
}

impl JsonNumber {
    /// The text `serde_json` prints for this number.
    pub fn to_text(&self) -> (s: String)
        ensures
            s@ == spec_number_text(*self),
    {
        match self {
            JsonNumber::PosInt(u) => {
                let mut s = String::new();
                push_decimal(&mut s, *u);
                assert(s@ =~= decimal(*u as nat));
                s
            },
            JsonNumber::NegInt(i) => {
                let mut s = String::new();
                let magnitude: u64 = if *i == i64::MIN {
                    9223372036854775808u64
                } else if *i < 0 {
                    (-*i) as u64
                } else {
                    *i as u64
                };
                if *i < 0 {
                    proof {
                        reveal_strlit("-");
                    }
                    s.append("-");
                }
                push_decimal(&mut s, magnitude);
                proof {
                    if *i < 0 {
                        assert(s@ =~= seq!['-'] + decimal((-*i) as nat));
                    } else {
                        assert(s@ =~= decimal(*i as nat));
                    }
                }
                s
            },
            JsonNumber::Float { text, .. } => text.clone(),
        }
    }

    /// Whether two numbers are equal as `serde_json` compares them.
    pub fn equals(&self, other: &JsonNumber) -> (r: bool)
        ensures
            r == spec_number_eq(*self, *other),
    {
        match (self, other) {
            (JsonNumber::PosInt(x), JsonNumber::PosInt(y)) => *x == *y,
            (JsonNumber::NegInt(x), JsonNumber::NegInt(y)) => *x == *y,
            (JsonNumber::Float { text: t1, zero: z1 }, JsonNumber::Float { text: t2, zero: z2 }) => (
            *z1 && *z2) || *t1 == *t2,
            _ => false,
        }
    }
}

impl JsonValue {
    /// `value.get(key)`: the member `key` of an object.
    pub fn get<'a>(&'a self, key: &str) -> (r: Option<&'a JsonValue>)
        ensures
            match r {
                Some(v) => spec_get(*self, key@) == Some(*v),
                None => spec_get(*self, key@) is None,
            },
    {
        match self {
            JsonValue::Object(entries) => {
                assert(spec_get(*self, key@) == entries_get(entries@, key@));
                let mut i: usize = 0;
                assert(entries@.skip(0) =~= entries@);
                while i < entries.len()
                    invariant
                        0 <= i <= entries@.len(),
                        spec_get(*self, key@) == entries_get(entries@, key@),
                        entries_get(entries@, key@) == entries_get(entries@.skip(i as int), key@),
                    decreases entries@.len() - i,
                {
                    assert(entries@.skip(i as int).drop_first() =~= entries@.skip(i + 1));
                    assert(entries@.skip(i as int).len() > 0);
                    assert(entries@.skip(i as int)[0] == entries@[i as int]);
                    if str_equals(entries[i].0.as_str(), key) {
                        assert(entries@[i as int].0@ == key@);
                        assert(entries_get(entries@.skip(i as int), key@) == Some(entries@[i as int].1));
                        return Some(&entries[i].1);
                    }
                    i += 1;
                }
                None
            },
            _ => None,
        }
    }

    /// Whether the value is `Null`.
    pub fn is_null(&self) -> (r: bool)
        ensures
            r == (*self is Null),
    {
        match self {
            JsonValue::Null => true,
            _ => false,
        }
    }

    /// `value.as_str()`.
    pub fn as_str(&self) -> (r: Option<&str>)
        ensures
            match r {
                Some(s) => spec_as_str(*self) == Some(s@),
                None => spec_as_str(*self) is None,
            },
    {
        match self {
            JsonValue::String(s) => Some(s.as_str()),
            _ => None,
        }
    }

    /// `value.as_bool()`.
    pub fn as_bool(&self) -> (r: Option<bool>)
        ensures
            r == (match *self {
                JsonValue::Bool(b) => Some(b),
                _ => None,
            }),
    {
        match self {
            JsonValue::Bool(b) => Some(*b),
            _ => None,
        }
    }

    /// `value.as_number()`.
    pub fn as_number(&self) -> (r: Option<&JsonNumber>)
        ensures
            match r {
                Some(n) => spec_as_number(*self) == Some(*n),
                None => spec_as_number(*self) is None,
            },
    {
        match self {
            JsonValue::Number(n) => Some(n),
            _ => None,
        }
    }

    /// `value.as_array()`.
    pub fn as_array(&self) -> (r: Option<&Vec<JsonValue>>)
        ensures
            match r {
                Some(items) => *self == JsonValue::Array(*items),
                None => !(*self is Array),
            },
    {
        match self {
            JsonValue::Array(items) => Some(items),
            _ => None,
        }
    }

    /// `value.as_object()`.
    pub fn as_object(&self) -> (r: Option<&Vec<(String, JsonValue)>>)
        ensures
            match r {
                Some(entries) => *self == JsonValue::Object(*entries),
                None => !(*self is Object),
            },
    {
        match self {
            JsonValue::Object(entries) => Some(entries),
            _ => None,
        }
    }
}

/// Whether two values are equal as `serde_json` compares them: by kind and
/// content, arrays element by element, objects as maps (the same number of
/// entries, each matched by an entry of the other under the same key with
/// an equal value).
pub open spec fn json_eq(a: JsonValue, b: JsonValue) -> bool
    decreases a, 0int,
{
    match a {
        JsonValue::Null => b is Null,
        JsonValue::Bool(x) => b == JsonValue::Bool(x),
        JsonValue::Number(x) => match b {
            JsonValue::Number(y) => spec_number_eq(x, y),
            _ => false,
        },
        JsonValue::String(x) => match b {
            JsonValue::String(y) => x@ == y@,
            _ => false,
        },
        JsonValue::Array(xs) => match b {
            JsonValue::Array(ys) => xs@.len() == ys@.len() && forall|i: int|
                0 <= i < xs@.len() ==> json_eq(#[trigger] xs@[i], ys@[i]),
            _ => false,
        },
        JsonValue::Object(xs) => match b {
            JsonValue::Object(ys) => xs@.len() == ys@.len() && forall|i: int|
                0 <= i < xs@.len() ==> entry_matched(#[trigger] xs@[i], ys@),
            _ => false,
        },
    }
}

/// Whether some entry of `ys` has the key of `x` and a value equal to its.
pub open spec fn entry_matched(x: (String, JsonValue), ys: Seq<(String, JsonValue)>) -> bool
    decreases x.1, ys.len(),
{
    if ys.len() == 0 {
        false
    } else {
        (ys[0].0@ == x.0@ && json_eq(x.1, ys[0].1)) || entry_matched(x, ys.drop_first())
    }
}

/// Whether two values are equal as `serde_json` compares them.
pub fn json_equals(a: &JsonValue, b: &JsonValue) -> (r: bool)
    ensures
        r == json_eq(*a, *b),
    decreases a,
{
    match a {
        JsonValue::Null => match b {
            JsonValue::Null => true,
            _ => false,
        },
        JsonValue::Bool(x) => match b {
            JsonValue::Bool(y) => *x == *y,
            _ => false,
        },
        JsonValue::Number(x) => match b {
            JsonValue::Number(y) => x.equals(y),
            _ => false,
        },
        JsonValue::String(x) => match b {
            JsonValue::String(y) => *x == *y,
            _ => false,
        },
        JsonValue::Array(xs) => match b {
            JsonValue::Array(ys) => {
                if xs.len() != ys.len() {
                    return false;
                }
                let mut i: usize = 0;
                while i < xs.len()
                    invariant
                        0 <= i <= xs@.len(),
                        xs@.len() == ys@.len(),
                        *a == JsonValue::Array(*xs),
                        *b == JsonValue::Array(*ys),
                        forall|k: int| 0 <= k < i ==> json_eq(#[trigger] xs@[k], ys@[k]),
                    decreases xs@.len() - i,
                {
                    assert(decreases_to!(*a => (*a)->Array_0@[i as int]));
                    if !json_equals(&xs[i], &ys[i]) {
                        return false;
                    }
                    i += 1;
                }
                true
            },
            _ => false,
        },
        JsonValue::Object(xs) => match b {
            JsonValue::Object(ys) => {
                if xs.len() != ys.len() {
                    return false;
                }
                let mut i: usize = 0;
                while i < xs.len()
                    invariant
                        0 <= i <= xs@.len(),
                        xs@.len() == ys@.len(),
                        *a == JsonValue::Object(*xs),
                        *b == JsonValue::Object(*ys),
                        forall|k: int| 0 <= k < i ==> entry_matched(#[trigger] xs@[k], ys@),
                    decreases xs@.len() - i,
                {
                    let mut found = false;
                    let mut j: usize = 0;
                    assert(ys@.skip(0) =~= ys@);
                    while j < ys.len()
                        invariant
                            0 <= i < xs@.len(),
                            0 <= j <= ys@.len(),
                            *a == JsonValue::Object(*xs),
                            entry_matched(xs@[i as int], ys@) == (found || entry_matched(
                                xs@[i as int],
                                ys@.skip(j as int),
                            )),
                        decreases ys@.len() - j,
                    {
                        assert(ys@.skip(j as int).drop_first() =~= ys@.skip(j + 1));
                        assert(ys@.skip(j as int)[0] == ys@[j as int]);
                        if !found && xs[i].0 == ys[j].0 {
                            assert(decreases_to!(*a => (*a)->Object_0@[i as int].1));
                            if json_equals(&xs[i].1, &ys[j].1) {
                                found = true;
                            }
                        }
                        j += 1;
                    }
                    if !found {
                        return false;
                    }
                    i += 1;
                }
                true
            },
            _ => false,
        },
    }
}

/// How deeply arrays and objects nest in a value: 0 for a scalar, one more
/// than the deepest element for an array or an object.
pub open spec fn json_height(v: JsonValue) -> nat
    decreases v, 1int,
{
    match v {
        JsonValue::Array(xs) => 1 + items_height(xs@),
        JsonValue::Object(es) => 1 + entries_height(es@),
        _ => 0,
    }
}

/// The greatest height among `xs`.
pub open spec fn items_height(xs: Seq<JsonValue>) -> nat
    decreases xs, 0int,
{
    if xs.len() == 0 {
        0
    } else {
        let a = items_height(xs.drop_last());
        let b = json_height(xs.last());
        if a < b {
            b
        } else {
            a
        }
    }
}

/// The greatest height among the values of `es`.
pub open spec fn entries_height(es: Seq<(String, JsonValue)>) -> nat
    decreases es, 0int,
{
    if es.len() == 0 {
        0
    } else {
        let a = entries_height(es.drop_last());
        let b = json_height(es.last().1);
        if a < b {
            b
        } else {
            a
        }
    }
}

proof fn lemma_entries_height_bounds(es: Seq<(String, JsonValue)>, i: int)
    requires
        0 <= i < es.len(),
    ensures
        json_height(es[i].1) <= entries_height(es),
    decreases es.len(),
{
    if i < es.len() - 1 {
        lemma_entries_height_bounds(es.drop_last(), i);
    }
}

proof fn lemma_entries_get_member(es: Seq<(String, JsonValue)>, key: Seq<char>)
    requires
        entries_get(es, key) is Some,
    ensures
        exists|i: int| 0 <= i < es.len() && es[i].1 == entries_get(es, key)->0,
    decreases es.len(),
{
    if es[0].0@ == key {
        assert(es[0].1 == entries_get(es, key)->0);
    } else {
        lemma_entries_get_member(es.drop_first(), key);
        let i = choose|i: int| 0 <= i < es.drop_first().len() && es.drop_first()[i].1 == entries_get(es.drop_first(), key)->0;
        assert(es[i + 1].1 == entries_get(es, key)->0);
    }
}

/// A member is less deep than the object holding it.
pub proof fn lemma_member_height(v: JsonValue, key: Seq<char>)
    requires
        spec_get(v, key) is Some,
    ensures
        json_height(spec_get(v, key)->0) < json_height(v),
{
    match v {
        JsonValue::Object(es) => {
            lemma_entries_get_member(es@, key);
            let i = choose|i: int| 0 <= i < es@.len() && es@[i].1 == entries_get(es@, key)->0;
            lemma_entries_height_bounds(es@, i);
        },
        _ => {},
    }
}

/// A schema that is a reference: one whose `$ref` member is a string.
pub trait ValueExt {
    spec fn spec_schema_ref(&self) -> Option<Seq<char>>;

    fn is_schema_ref(&self) -> (r: bool)
        ensures
            r == self.spec_schema_ref() is Some;

    fn schema_ref(&self) -> (r: Option<&str>)
        ensures
            match r {
                Some(s) => self.spec_schema_ref() == Some(s@),
                None => self.spec_schema_ref() is None,
            };
}

impl ValueExt for JsonValue {
    open spec fn spec_schema_ref(&self) -> Option<Seq<char>> {
        spec_str_at(*self, "$ref"@)
    }

    fn is_schema_ref(&self) -> (r: bool) {
        self.schema_ref().is_some()
    }

    fn schema_ref(&self) -> (r: Option<&str>) {
        match self.get("$ref") {
            Some(v) => v.as_str(),
            None => None,
        }
    }
}

} // verus!
