use vstd::prelude::*;

use url::Url;

verus! {

/// The text of `Url::parse(base)` joined with `reference` by `Url::join`
/// (RFC 3986 reference resolution), or `None` when either step fails.
pub uninterp spec fn url_join(base: Seq<char>, reference: Seq<char>) -> Option<Seq<char>>;

/// The text of the URL `Url::parse(text)` reads, once `set_fragment(None)`
/// has removed its fragment, or `None` when `text` is not a URL.
pub uninterp spec fn url_without_fragment(text: Seq<char>) -> Option<Seq<char>>;

/// The text of the URL `Url::parse(text)` reads, once
/// `set_fragment(Some(fragment))` has given it that fragment, or `None` when
/// `text` is not a URL.
pub uninterp spec fn url_with_fragment(text: Seq<char>, fragment: Seq<char>) -> Option<Seq<char>>;

/// The host (`host_str`) and path (`path`) of the URL `Url::parse(text)`
/// reads, or `None` when `text` is not a URL.
pub uninterp spec fn url_host_and_path(text: Seq<char>) -> Option<(Option<Seq<char>>, Seq<char>)>;

/// `url::Url::parse(base)` then `Url::join(reference)`, as text. Claimed:
/// the result is `url_join` of the two texts.
#[verifier::external_body]
pub(crate) fn join_url(base: &str, reference: &str) -> (r: Option<String>)
    ensures
        match r {
            Some(u) => url_join(base@, reference@) == Some(u@),
            None => url_join(base@, reference@) is None,
        },
{
    match Url::parse(base) {
        Ok(b) => match b.join(reference) {
            Ok(u) => Some(u.as_str().to_owned()),
            Err(_) => None,
        },
        Err(_) => None,
    }
}

/// `url::Url::parse(text)` then `Url::set_fragment(None)`, as text. Claimed:
/// the result is `url_without_fragment` of the text.
#[verifier::external_body]
pub(crate) fn strip_fragment(text: &str) -> (r: Option<String>)
    ensures
        match r {
            Some(u) => url_without_fragment(text@) == Some(u@),
            None => url_without_fragment(text@) is None,
        },
{
    match Url::parse(text) {
        Ok(mut u) => {
            u.set_fragment(None);
            Some(u.as_str().to_owned())
        },
        Err(_) => None,
    }
}

/// `url::Url::parse(text)` then `Url::set_fragment(Some(fragment))`, as
/// text. Claimed: the result is `url_with_fragment` of the two texts.
#[verifier::external_body]
pub(crate) fn with_fragment(text: &str, fragment: &str) -> (r: Option<String>)
    ensures
        match r {
            Some(u) => url_with_fragment(text@, fragment@) == Some(u@),
            None => url_with_fragment(text@, fragment@) is None,
        },
{
    match Url::parse(text) {
        Ok(mut u) => {
            u.set_fragment(Some(fragment));
            Some(u.as_str().to_owned())
        },
        Err(_) => None,
    }
}

/// `url::Url::parse(text)`, read as its `host_str()` and `path()`. Claimed:
/// the result is `url_host_and_path` of the text.
#[verifier::external_body]
pub(crate) fn parse_host_and_path(text: &str) -> (r: Option<(Option<String>, String)>)
    ensures
        match r {
            Some((h, p)) => url_host_and_path(text@) == Some(
                (
                    match h {
                        Some(s) => Some(s@),
                        None => None::<Seq<char>>,
                    },
                    p@,
                ),
            ),
            None => url_host_and_path(text@) is None,
        },
{
    match Url::parse(text) {
        Ok(u) => Some((u.host_str().map(str::to_owned), u.path().to_owned())),
        Err(_) => None,
    }
}

/// The absolute URL a `$ref` denotes, resolved against the base in force
/// where it is written: RFC 3986 reference resolution, so a fragment-only
/// reference names the base document, a relative path a sibling, and an
/// absolute URL itself.
pub fn reference_url(base: &str, reference: &str) -> (r: Option<String>)
    ensures
        match r {
            Some(u) => url_join(base@, reference@) == Some(u@),
            None => url_join(base@, reference@) is None,
        },
{
    join_url(base, reference)
}

} // verus!
