use vstd::prelude::*;

use url::Url;

use crate::ext::opt_chars;
use crate::json::JsonValue;
use crate::jsonview::{json_items_view, lemma_items_view, view_get, JsonView};
use crate::markdown::strs;
use crate::schema::{entries_lookup, rebase, spec_rebase};
use crate::text::chars_of;

verus! {

/// The fragment of the URL `url::Url::parse(text)` reads (`Url::fragment`),
/// or `None` when it has none or `text` is not a URL.
pub uninterp spec fn url_fragment(text: Seq<char>) -> Option<Seq<char>>;

/// `percent_encoding::percent_decode_str(text).decode_utf8()`: the text
/// with each `%` and two hexadecimal digits decoded, or `None` when the
/// decoded bytes are not UTF-8.
pub uninterp spec fn percent_decoded(text: Seq<char>) -> Option<Seq<char>>;

/// `url::Url::parse(text)` read as its `fragment()`. Claimed: the result is
/// `url_fragment` of the text.
#[verifier::external_body]
fn fragment_of(text: &str) -> (r: Option<String>)
    ensures
        opt_chars(r) == url_fragment(text@),
{
    match Url::parse(text) {
        Ok(u) => u.fragment().map(str::to_owned),
        Err(_) => None,
    }
}

/// `percent_encoding::percent_decode_str(text).decode_utf8()`. Claimed: the
/// result is `percent_decoded` of the text.
#[verifier::external_body]
fn percent_decode(text: &str) -> (r: Option<String>)
    ensures
        opt_chars(r) == percent_decoded(text@),
{
    match percent_encoding::percent_decode_str(text).decode_utf8() {
        Ok(s) => Some(s.into_owned()),
        Err(_) => None,
    }
}

/// What the fragment of a reference's URL names within its document.
#[derive(Debug, PartialEq, Eq)]
pub enum FragmentTarget {
    /// No fragment, or an empty one: the whole document.
    Whole,
    /// A JSON pointer, percent-decoded.
    Pointer(String),
    /// A plain-name fragment, naming an anchor.
    Anchor(String),
    /// A fragment whose percent-decoding is not UTF-8.
    Undecodable,
}

/// What the fragment of `url` names, as the specifications read it: the
/// whole document, a pointer or an anchor (both decoded), or nothing.
pub open spec fn spec_fragment_target(url: Seq<char>) -> Option<Option<(bool, Seq<char>)>> {
    let fragment = match url_fragment(url) {
        Some(f) => f,
        None => Seq::empty(),
    };
    if fragment.len() == 0 {
        Some(None)
    } else {
        match percent_decoded(fragment) {
            Some(p) => Some(Some((p.len() > 0 && p[0] == '/', p))),
            None => None,
        }
    }
}

/// What a target is, as `spec_fragment_target` reads it.
pub open spec fn target_view(t: FragmentTarget) -> Option<Option<(bool, Seq<char>)>> {
    match t {
        FragmentTarget::Whole => Some(None),
        FragmentTarget::Pointer(p) => Some(Some((true, p@))),
        FragmentTarget::Anchor(a) => Some(Some((false, a@))),
        FragmentTarget::Undecodable => None,
    }
}

/// What the fragment of a reference's URL names: the whole document when
/// it is empty, else, once percent-decoded (a URI fragment is
/// percent-encoded where a JSON pointer is not), a pointer when it starts
/// with `/` and an anchor otherwise.
pub fn fragment_target(url: &str) -> (r: FragmentTarget)
    ensures
        target_view(r) == spec_fragment_target(url@),
{
    let fragment = match fragment_of(url) {
        Some(f) => f,
        None => String::new(),
    };
    if fragment.as_str().unicode_len() == 0 {
        return FragmentTarget::Whole;
    }
    match percent_decode(fragment.as_str()) {
        Some(p) => {
            if p.as_str().unicode_len() > 0 && p.as_str().get_char(0) == '/' {
                FragmentTarget::Pointer(p)
            } else {
                FragmentTarget::Anchor(p)
            }
        },
        None => FragmentTarget::Undecodable,
    }
}

/// `s.split('/')`: the pieces between slashes, in order.
pub open spec fn split_on_slash(s: Seq<char>) -> Seq<Seq<char>>
    decreases s.len(),
{
    if s.len() == 0 {
        seq![Seq::empty()]
    } else if s.last() == '/' {
        split_on_slash(s.drop_last()).push(Seq::empty())
    } else {
        let p = split_on_slash(s.drop_last());
        p.update(p.len() - 1, p.last().push(s.last()))
    }
}

proof fn lemma_split_nonempty(s: Seq<char>)
    ensures
        split_on_slash(s).len() >= 1,
    decreases s.len(),
{
    if s.len() > 0 {
        lemma_split_nonempty(s.drop_last());
    }
}

/// Splits `s` at every `/`.
fn split_slash(s: &str) -> (r: Vec<String>)
    ensures
        strs(r@) == split_on_slash(s@),
{
    let v = chars_of(s);
    let n = v.len();
    let mut tokens: Vec<String> = Vec::new();
    let mut start: usize = 0;
    let mut i: usize = 0;
    proof {
        assert(s@.take(0) =~= Seq::<char>::empty());
        assert(strs(tokens@) =~= Seq::<Seq<char>>::empty());
        assert(strs(tokens@).push(s@.subrange(0, 0)) =~= seq![Seq::<char>::empty()]);
    }
    while i < n
        invariant
            n == v@.len(),
            v@ == s@,
            0 <= start <= i <= n,
            split_on_slash(s@.take(i as int)) == strs(tokens@).push(s@.subrange(start as int, i as int)),
        decreases n - i,
    {
        proof {
            assert(s@.take(i + 1).drop_last() =~= s@.take(i as int));
            assert(s@.take(i + 1).last() == s@[i as int]);
        }
        if v[i] == '/' {
            let t = s.substring_char(start, i).to_owned();
            let ghost before = tokens@;
            tokens.push(t);
            proof {
                assert(strs(tokens@) =~= strs(before).push(s@.subrange(start as int, i as int)));
                assert(s@.subrange(i + 1, i + 1) =~= Seq::<char>::empty());
            }
            start = i + 1;
        } else {
            proof {
                let p = strs(tokens@).push(s@.subrange(start as int, i as int));
                assert(p.last() == s@.subrange(start as int, i as int));
                assert(s@.subrange(start as int, i as int).push(s@[i as int]) =~= s@.subrange(
                    start as int,
                    i + 1,
                ));
                assert(p.update(p.len() - 1, p.last().push(s@[i as int])) =~= strs(tokens@).push(
                    s@.subrange(start as int, i + 1),
                ));
            }
        }
        i += 1;
    }
    let t = s.substring_char(start, n).to_owned();
    let ghost before = tokens@;
    tokens.push(t);
    proof {
        assert(s@.take(n as int) =~= s@);
        assert(strs(tokens@) =~= strs(before).push(s@.subrange(start as int, n as int)));
    }
    tokens
}

/// `s` with every `a` followed by `b` replaced by `to`, scanning from the
/// left without overlap: `str::replace` with a two-character pattern.
pub open spec fn replace_pair(s: Seq<char>, a: char, b: char, to: char) -> Seq<char>
    decreases s.len(),
{
    if s.len() == 0 {
        s
    } else if s.len() >= 2 && s[0] == a && s[1] == b {
        seq![to] + replace_pair(s.skip(2), a, b, to)
    } else {
        seq![s[0]] + replace_pair(s.skip(1), a, b, to)
    }
}

/// A pointer token unescaped: `~1` becomes `/`, then `~0` becomes `~`.
pub open spec fn unescape(token: Seq<char>) -> Seq<char> {
    replace_pair(replace_pair(token, '~', '1', '/'), '~', '0', '~')
}

/// Replaces every `a` followed by `b` in `s` with `to`.
fn replace_chars(s: &str, a: char, b: char, to: &str) -> (r: String)
    requires
        to@.len() == 1,
    ensures
        r@ == replace_pair(s@, a, b, to@[0]),
{
    let v = chars_of(s);
    let n = v.len();
    let mut out = String::new();
    let mut i: usize = 0;
    proof {
        assert(s@.skip(0) =~= s@);
    }
    while i < n
        invariant
            n == v@.len(),
            v@ == s@,
            0 <= i <= n,
            to@.len() == 1,
            out@ + replace_pair(s@.skip(i as int), a, b, to@[0]) == replace_pair(s@, a, b, to@[0]),
        decreases n - i,
    {
        let rest = Ghost(s@.skip(i as int));
        if i + 1 < n && v[i] == a && v[i + 1] == b {
            proof {
                assert(rest@[0] == a && rest@[1] == b);
                assert(rest@.skip(2) =~= s@.skip(i + 2));
                assert(seq![to@[0]] =~= to@);
            }
            out.append(to);
            i += 2;
            proof {
                assert(out@ + replace_pair(s@.skip(i as int), a, b, to@[0]) =~= replace_pair(
                    s@,
                    a,
                    b,
                    to@[0],
                ));
            }
        } else {
            proof {
                assert(rest@[0] == s@[i as int]);
                assert(rest@.skip(1) =~= s@.skip(i + 1));
            }
            let c = s.substring_char(i, i + 1);
            proof {
                assert(c@ =~= seq![s@[i as int]]);
            }
            out.append(c);
            i += 1;
            proof {
                assert(out@ + replace_pair(s@.skip(i as int), a, b, to@[0]) =~= replace_pair(
                    s@,
                    a,
                    b,
                    to@[0],
                ));
            }
        }
    }
    proof {
        assert(s@.skip(n as int) =~= Seq::<char>::empty());
        assert(out@ =~= out@ + replace_pair(s@.skip(n as int), a, b, to@[0]));
    }
    out
}

/// Unescapes a pointer token: `~1` becomes `/`, then `~0` becomes `~`.
pub fn unescape_token(token: &str) -> (r: String)
    ensures
        r@ == unescape(token@),
{
    proof {
        reveal_strlit("/");
        reveal_strlit("~");
    }
    let slashes = replace_chars(token, '~', '1', "/");
    replace_chars(slashes.as_str(), '~', '0', "~")
}

/// Whether every character of `d` is an ASCII digit.
pub open spec fn all_digits(d: Seq<char>) -> bool {
    forall|i: int| 0 <= i < d.len() ==> '0' <= #[trigger] d[i] <= '9'
}

/// The number the decimal digits `d` spell.
pub open spec fn digits_value(d: Seq<char>) -> nat
    decreases d.len(),
{
    if d.len() == 0 {
        0
    } else {
        digits_value(d.drop_last()) * 10 + ((d.last() as nat) - ('0' as nat)) as nat
    }
}

/// `token.parse::<usize>()`: an optional `+` and at least one decimal digit,
/// whose value fits a `usize`.
pub open spec fn spec_parse_index(token: Seq<char>) -> Option<nat> {
    let d = if token.len() > 0 && token[0] == '+' {
        token.skip(1)
    } else {
        token
    };
    if d.len() > 0 && all_digits(d) && digits_value(d) <= usize::MAX {
        Some(digits_value(d))
    } else {
        None
    }
}

proof fn lemma_digits_value_grows(d: Seq<char>, i: int)
    requires
        0 <= i <= d.len(),
        all_digits(d),
    ensures
        digits_value(d.take(i)) <= digits_value(d),
    decreases d.len() - i,
{
    if i < d.len() {
        lemma_digits_value_grows(d, i + 1);
        assert(d.take(i + 1).drop_last() =~= d.take(i));
    } else {
        assert(d.take(i) =~= d);
    }
}

/// Reads an array position from a pointer token as `str::parse::<usize>`
/// does.
pub fn parse_index(token: &str) -> (r: Option<usize>)
    ensures
        match r {
            Some(i) => spec_parse_index(token@) == Some(i as nat),
            None => spec_parse_index(token@) is None,
        },
{
    let v = chars_of(token);
    let n = v.len();
    let first: usize = if n > 0 && v[0] == '+' {
        1
    } else {
        0
    };
    let ghost d = if token@.len() > 0 && token@[0] == '+' {
        token@.skip(1)
    } else {
        token@
    };
    assert(d =~= v@.skip(first as int));
    if first >= n {
        return None;
    }
    let mut value: usize = 0;
    let mut i: usize = first;
    assert(d.take(0) =~= Seq::<char>::empty());
    while i < n
        invariant
            n == v@.len(),
            v@ == token@,
            first <= i <= n,
            d == v@.skip(first as int),
            d == (if token@.len() > 0 && token@[0] == '+' {
                token@.skip(1)
            } else {
                token@
            }),
            all_digits(d.take(i - first)),
            value == digits_value(d.take(i - first)),
        decreases n - i,
    {
        let c = v[i];
        proof {
            assert(d.take(i - first + 1).drop_last() =~= d.take(i - first));
            assert(d.take(i - first + 1).last() == c);
        }
        if c < '0' || c > '9' {
            proof {
                assert(d[i - first] == v@[i as int]);
                assert(!all_digits(d));

            }
            return None;
        }
        let digit: usize = (c as u32 - '0' as u32) as usize;
        let next = match value.checked_mul(10) {
            Some(t) => t.checked_add(digit),
            None => None,
        };
        match next {
            Some(t) => {
                value = t;
            },
            None => {
                proof {
                    let k = i - first;
                    assert(digits_value(d.take(k + 1)) == value * 10 + digit);
                    assert(digits_value(d.take(k + 1)) > usize::MAX);
                    if all_digits(d) {
                        lemma_digits_value_grows(d, k + 1);
                    }
                }
                return None;
            },
        }
        i += 1;
    }
    proof {
        assert(d.take(n - first) =~= d);
    }
    Some(value)
}

/// The value one unescaped pointer token selects: a member of an object, or
/// a position of an array when the token reads as one that exists.
pub open spec fn pointer_step(target: JsonView, token: Seq<char>) -> Option<JsonView> {
    match target {
        JsonView::Object(es) => view_get(es, token),
        JsonView::Array(xs) => match spec_parse_index(token) {
            Some(i) => if i < xs.len() {
                Some(xs[i as int])
            } else {
                None
            },
            None => None,
        },
        _ => None,
    }
}

/// Walks `tokens` down from `target`; the `$id` of each object the walk
/// passes through re-bases what lies below it.
pub open spec fn pointer_walk(base: Seq<char>, target: JsonView, tokens: Seq<Seq<char>>) -> Option<
    (Seq<char>, JsonView),
>
    decreases tokens.len(),
{
    if tokens.len() == 0 {
        Some((base, target))
    } else {
        let b = match spec_rebase(base, target) {
            Some(r) => r,
            None => base,
        };
        match pointer_step(target, unescape(tokens[0])) {
            Some(next) => pointer_walk(b, next, tokens.drop_first()),
            None => None,
        }
    }
}

/// The value a JSON pointer (one that starts with `/`) names in a document
/// at `base`, with the base in force around it.
pub open spec fn spec_pointer_target(base: Seq<char>, document: JsonView, pointer: Seq<char>) -> Option<
    (Seq<char>, JsonView),
> {
    pointer_walk(base, document, split_on_slash(pointer).drop_first())
}

/// The value a JSON pointer names in a document whose base is
/// `document_base`, with the base in force around it.
///
/// The `$id` of an object the pointer passes through re-bases what lies
/// below it; the one on the object the pointer lands on is left to whoever
/// enters it, which re-bases on entry. Each token is unescaped (`~1` is `/`,
/// `~0` is `~`) before it is looked up.
pub fn pointer_target<'d>(document_base: &str, document: &'d JsonValue, pointer: &str) -> (r: Option<
    (String, &'d JsonValue),
>)
    ensures
        match r {
            Some((b, t)) => spec_pointer_target(document_base@, document@, pointer@) == Some(
                (b@, t@),
            ),
            None => spec_pointer_target(document_base@, document@, pointer@) is None,
        },
{
    let tokens = split_slash(pointer);
    proof {
        lemma_split_nonempty(pointer@);
    }
    let ghost toks = split_on_slash(pointer@).drop_first();
    let mut base: String = document_base.to_owned();
    let mut target: &'d JsonValue = document;
    let mut j: usize = 1;
    assert(toks.skip(0) =~= toks);
    while j < tokens.len()
        invariant
            1 <= j <= tokens@.len(),
            strs(tokens@) == split_on_slash(pointer@),
            toks == split_on_slash(pointer@).drop_first(),
            pointer_walk(document_base@, document@, toks) == pointer_walk(
                base@,
                target@,
                toks.skip(j - 1),
            ),
        decreases tokens@.len() - j,
    {
        proof {
            assert(toks.skip(j - 1).drop_first() =~= toks.skip(j as int));
            assert(toks.skip(j - 1)[0] == strs(tokens@)[j as int]);
            assert(strs(tokens@)[j as int] == tokens@[j as int]@);
        }
        let ghost rest = toks.skip(j - 1);
        let ghost old_base = base@;
        let ghost old_target = target@;
        match rebase(base.as_str(), target) {
            Some(rebased) => {
                base = rebased;
            },
            None => {},
        }
        let token = unescape_token(tokens[j].as_str());
        let next: Option<&'d JsonValue> = match target {
            JsonValue::Object(es) => entries_lookup(es, token.as_str()),
            JsonValue::Array(items) => {
                proof {
                    lemma_items_view(items@);
                }
                match parse_index(token.as_str()) {
                    Some(ix) => if ix < items.len() {
                        Some(&items[ix])
                    } else {
                        None
                    },
                    None => None,
                }
            },
            _ => None,
        };
        assert(match next {
            Some(n) => pointer_step(old_target, unescape(rest[0])) == Some(n@),
            None => pointer_step(old_target, unescape(rest[0])) is None,
        });
        match next {
            Some(n) => {
                target = n;
            },
            None => {
                return None;
            },
        }
        j += 1;
    }
    proof {
        assert(toks.skip(j - 1) =~= Seq::<Seq<char>>::empty());
    }
    Some((base, target))
}

} // verus!
