use vstd::prelude::*;

use crate::syntax::{
    contains_multiline_inline_table, contains_multiline_inline_table_exec, SyntaxElement,
    SyntaxKind, SyntaxNode,
};
use crate::text::{chars_of, next_word, next_word_bounds, slice_equals, str_equals};

verus! {

/// The TOML version the formatter targets.
#[derive(Debug, Clone, Copy, Eq, PartialEq, Structural)]
pub enum TomlVersion {
    /// Target TOML 1.0 unless the document already contains syntax that
    /// requires TOML 1.1.
    Auto,
    V1_0,
    V1_1,
}

/// The value of a `#:toml-version` directive, or an option, was not one of
/// `"auto"`, `"1.0"`, or `"1.1"`.
#[derive(Debug)]
pub struct InvalidTomlVersion(String);

/// The TOML version a document was formatted against, with `Auto` already
/// resolved to a concrete version.
#[derive(Debug, Clone, Copy, Eq, PartialEq, Structural)]
pub enum ResolvedVersion {
    V1_0,
    V1_1,
}

/// The version a name denotes: `"auto"`, `"1.0"` or `"1.1"`.
pub open spec fn spec_version_named(s: Seq<char>) -> Option<TomlVersion> {
    if s == "auto"@ {
        Some(TomlVersion::Auto)
    } else if s == "1.0"@ {
        Some(TomlVersion::V1_0)
    } else if s == "1.1"@ {
        Some(TomlVersion::V1_1)
    } else {
        None
    }
}

/// The name of a version, as it is written in a directive or an option.
pub open spec fn spec_version_name(v: TomlVersion) -> Seq<char> {
    match v {
        TomlVersion::Auto => "auto"@,
        TomlVersion::V1_0 => "1.0"@,
        TomlVersion::V1_1 => "1.1"@,
    }
}

impl Default for TomlVersion {
    fn default() -> (v: TomlVersion)
        ensures
            v == TomlVersion::Auto,
    {
        TomlVersion::Auto
    }
}

impl TomlVersion {
    /// Reads a version from its name, rejecting anything but `"auto"`,
    /// `"1.0"` and `"1.1"` with the rejected text.
    pub fn parse_name(s: &str) -> (r: Result<TomlVersion, InvalidTomlVersion>)
        ensures
            match spec_version_named(s@) {
                Some(v) => r == Ok::<TomlVersion, InvalidTomlVersion>(v),
                None => r matches Err(e) && e.spec_value() == s@,
            },
    {
        if str_equals(s, "auto") {
            Ok(TomlVersion::Auto)
        } else if str_equals(s, "1.0") {
            Ok(TomlVersion::V1_0)
        } else if str_equals(s, "1.1") {
            Ok(TomlVersion::V1_1)
        } else {
            Err(InvalidTomlVersion(s.to_owned()))
        }
    }

    /// The name of this version: `"auto"`, `"1.0"` or `"1.1"`.
    pub fn as_str(&self) -> (s: &'static str)
        ensures
            s@ == spec_version_name(*self),
    {
        match self {
            TomlVersion::Auto => "auto",
            TomlVersion::V1_0 => "1.0",
            TomlVersion::V1_1 => "1.1",
        }
    }
}

impl core::str::FromStr for TomlVersion {
    type Err = InvalidTomlVersion;

    fn from_str(s: &str) -> (r: Result<Self, Self::Err>)
        ensures
            match spec_version_named(s@) {
                Some(v) => r == Ok::<TomlVersion, InvalidTomlVersion>(v),
                None => r matches Err(e) && e.spec_value() == s@,
            },
    {
        TomlVersion::parse_name(s)
    }
}

impl InvalidTomlVersion {
    /// The text that was not a version name.
    pub closed spec fn spec_value(&self) -> Seq<char> {
        self.0@
    }

    /// The text that was not a version name.
    pub fn value(&self) -> (s: &str)
        ensures
            s@ == self.spec_value(),
    {
        self.0.as_str()
    }

    /// The error as a reader sees it: `invalid TOML version "<text>"`.
    pub fn message(&self) -> (m: String)
        ensures
            m@ == "invalid TOML version \""@ + self.spec_value() + "\""@,
    {
        let mut m = "invalid TOML version \"".to_owned();
        m.append(self.0.as_str());
        m.append("\"");
        m
    }
}

/// The version a `#:toml-version` comment names: the comment must start with
/// `#:`, its first whitespace-separated word must be `toml-version`, and its
/// second must be `1.0` or `1.1`.
pub open spec fn spec_parse_directive(text: Seq<char>) -> Option<ResolvedVersion> {
    if text.len() >= 2 && text[0] == '#' && text[1] == ':' {
        match next_word(text.skip(2)) {
            Some((first, rest)) => if first == "toml-version"@ {
                match next_word(rest) {
                    Some((value, _)) => if value == "1.0"@ {
                        Some(ResolvedVersion::V1_0)
                    } else if value == "1.1"@ {
                        Some(ResolvedVersion::V1_1)
                    } else {
                        None
                    },
                    None => None,
                }
            } else {
                None
            },
            None => None,
        }
    } else {
        None
    }
}

/// The version named by the first valid directive among the comments that
/// open the document, before any node or other token.
pub open spec fn spec_directive_version(elems: Seq<SyntaxElement>) -> Option<ResolvedVersion>
    decreases elems.len(),
{
    if elems.len() == 0 {
        None
    } else {
        match elems[0] {
            SyntaxElement::Node(_) => None,
            SyntaxElement::Token(t) => if t.kind == SyntaxKind::NEWLINE || t.kind
                == SyntaxKind::WHITESPACE {
                spec_directive_version(elems.drop_first())
            } else if t.kind == SyntaxKind::COMMENT {
                match spec_parse_directive(t.text@) {
                    Some(v) => Some(v),
                    None => spec_directive_version(elems.drop_first()),
                }
            } else {
                None
            },
        }
    }
}

/// TOML 1.1 when the document holds a multi-line inline table, else 1.0.
pub open spec fn spec_detect_version(root: SyntaxNode) -> ResolvedVersion {
    if contains_multiline_inline_table(root) {
        ResolvedVersion::V1_1
    } else {
        ResolvedVersion::V1_0
    }
}

/// A directive outranks the configured version, which outranks detection.
pub open spec fn spec_resolve_version(root: SyntaxNode, configured: TomlVersion) -> ResolvedVersion {
    match spec_directive_version(root.children@) {
        Some(v) => v,
        None => match configured {
            TomlVersion::V1_0 => ResolvedVersion::V1_0,
            TomlVersion::V1_1 => ResolvedVersion::V1_1,
            TomlVersion::Auto => spec_detect_version(root),
        },
    }
}

/// Resolves the TOML version to format against.
///
/// A `#:toml-version` directive at the top of the document outranks
/// `configured`. Absent a directive, `configured` is used unless it is
/// `Auto`, in which case the document is scanned for a multi-line inline
/// table: a syntax construct TOML 1.0 does not allow.
pub fn resolve_version(root: &SyntaxNode, configured: TomlVersion) -> (r: ResolvedVersion)
    ensures
        r == spec_resolve_version(*root, configured),
{
    if let Some(version) = directive_version(root) {
        return version;
    }
    match configured {
        TomlVersion::V1_0 => ResolvedVersion::V1_0,
        TomlVersion::V1_1 => ResolvedVersion::V1_1,
        TomlVersion::Auto => detect_version(root),
    }
}

/// The version a directive among the document's leading comments names.
pub fn directive_version(root: &SyntaxNode) -> (r: Option<ResolvedVersion>)
    ensures
        r == spec_directive_version(root.children@),
{
    let mut i: usize = 0;
    assert(root.children@.skip(0) =~= root.children@);
    while i < root.children.len()
        invariant
            0 <= i <= root.children.len(),
            spec_directive_version(root.children@) == spec_directive_version(
                root.children@.skip(i as int),
            ),
        decreases root.children.len() - i,
    {
        let ghost rest = root.children@.skip(i as int);
        assert(rest.drop_first() =~= root.children@.skip(i + 1));
        assert(rest[0] == root.children@[i as int]);
        match &root.children[i] {
            SyntaxElement::Node(_) => {
                return None;
            },
            SyntaxElement::Token(token) => {
                if token.kind == SyntaxKind::NEWLINE || token.kind == SyntaxKind::WHITESPACE {
                } else if token.kind == SyntaxKind::COMMENT {
                    if let Some(version) = parse_directive(token.text.as_str()) {
                        return Some(version);
                    }
                } else {
                    return None;
                }
            },
        }
        i += 1;
    }
    None
}

/// The version a `#:toml-version` comment names, if it is one.
pub fn parse_directive(text: &str) -> (r: Option<ResolvedVersion>)
    ensures
        r == spec_parse_directive(text@),
{
    let v = chars_of(text);
    if v.len() < 2 || v[0] != '#' || v[1] != ':' {
        return None;
    }
    let (start, end) = match next_word_bounds(&v, 2) {
        Some(b) => b,
        None => return None,
    };
    if !slice_equals(&v, start, end, "toml-version") {
        return None;
    }
    proof {
        assert(v@.skip(end as int) == v@.skip(end as int));
    }
    let (vstart, vend) = match next_word_bounds(&v, end) {
        Some(b) => b,
        None => return None,
    };
    if slice_equals(&v, vstart, vend, "1.0") {
        Some(ResolvedVersion::V1_0)
    } else if slice_equals(&v, vstart, vend, "1.1") {
        Some(ResolvedVersion::V1_1)
    } else {
        None
    }
}

/// TOML 1.1 when the document holds a multi-line inline table, else 1.0.
pub fn detect_version(root: &SyntaxNode) -> (r: ResolvedVersion)
    ensures
        r == spec_detect_version(*root),
{
    if contains_multiline_inline_table_exec(root) {
        ResolvedVersion::V1_1
    } else {
        ResolvedVersion::V1_0
    }
}

/// A directive at the top of a document names the version it is formatted
/// against, whatever version is configured.
pub proof fn directive_outranks_configuration(root: SyntaxNode, configured: TomlVersion)
    requires
        spec_directive_version(root.children@) is Some,
    ensures
        spec_resolve_version(root, configured) == spec_directive_version(root.children@)->0,
{
}

/// Without a directive, a configured `1.0` or `1.1` is used whatever the
/// document holds.
pub proof fn configured_version_is_kept(root: SyntaxNode, configured: TomlVersion)
    requires
        spec_directive_version(root.children@) is None,
        configured != TomlVersion::Auto,
    ensures
        spec_resolve_version(root, configured) == (if configured == TomlVersion::V1_0 {
            ResolvedVersion::V1_0
        } else {
            ResolvedVersion::V1_1
        }),
{
}

/// Without a directive, `auto` resolves to TOML 1.1 exactly when the document
/// holds a multi-line inline table.
pub proof fn auto_detects_multiline_inline_tables(root: SyntaxNode)
    requires
        spec_directive_version(root.children@) is None,
    ensures
        (spec_resolve_version(root, TomlVersion::Auto) == ResolvedVersion::V1_1)
            == contains_multiline_inline_table(root),
{
}

/// A comment that does not start with `#:` never names a version.
pub proof fn only_directive_comments_name_versions(text: Seq<char>)
    requires
        !(text.len() >= 2 && text[0] == '#' && text[1] == ':'),
    ensures
        spec_parse_directive(text) is None,
{
}

/// Only the elements before the first node, or before the first token that is
/// neither a comment nor blank, can hold the directive: what follows is never
/// read.
pub proof fn directive_ends_at_first_content(elems: Seq<SyntaxElement>, k: int)
    requires
        0 <= k < elems.len(),
        match elems[k] {
            SyntaxElement::Node(_) => true,
            SyntaxElement::Token(t) => t.kind != SyntaxKind::NEWLINE && t.kind
                != SyntaxKind::WHITESPACE && t.kind != SyntaxKind::COMMENT,
        },
    ensures
        spec_directive_version(elems) == spec_directive_version(elems.take(k)),
    decreases k,
{
    if k > 0 {
        let rest = elems.drop_first();
        assert(rest[k - 1] == elems[k]);
        directive_ends_at_first_content(rest, k - 1);
        assert(elems.take(k).drop_first() =~= rest.take(k - 1));
        assert(elems.take(k)[0] == elems[0]);
    } else {
        assert(elems.take(0).len() == 0);
    }
}

/// Every version reads back from its name, and a name that reads as a
/// version is that version's name.
pub proof fn version_names_round_trip(v: TomlVersion, s: Seq<char>)
    ensures
        spec_version_named(spec_version_name(v)) == Some(v),
        spec_version_named(s) matches Some(w) ==> spec_version_name(w) == s,
{
    reveal_strlit("auto");
    reveal_strlit("1.0");
    reveal_strlit("1.1");
    assert("auto"@ != "1.0"@) by {
        assert("auto"@[0] != "1.0"@[0]);
    }
    assert("auto"@ != "1.1"@) by {
        assert("auto"@[0] != "1.1"@[0]);
    }
    assert("1.0"@ != "1.1"@) by {
        assert("1.0"@[2] != "1.1"@[2]);
    }
}

} // verus!
