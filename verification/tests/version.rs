use taplo_schema::syntax::{SyntaxElement, SyntaxKind, SyntaxNode, SyntaxToken};
use taplo_schema::version::{
    detect_version, directive_version, parse_directive, resolve_version, ResolvedVersion,
    TomlVersion,
};

/// A small reader for the TOML the version tests are written in: comments,
/// entries whose values are integers, bare words, arrays and inline tables,
/// with the whitespace and newlines between them kept as tokens.
struct Reader<'a> {
    chars: Vec<char>,
    pos: usize,
    _src: &'a str,
}

fn token(kind: SyntaxKind, text: String) -> SyntaxElement {
    SyntaxElement::Token(SyntaxToken { kind, text })
}

impl<'a> Reader<'a> {
    fn new(src: &'a str) -> Self {
        Reader { chars: src.chars().collect(), pos: 0, _src: src }
    }

    fn peek(&self) -> Option<char> {
        self.chars.get(self.pos).copied()
    }

    fn take_while(&mut self, f: impl Fn(char) -> bool) -> String {
        let mut s = String::new();
        while let Some(c) = self.peek() {
            if !f(c) {
                break;
            }
            s.push(c);
            self.pos += 1;
        }
        s
    }

    /// Whitespace, newlines and (where allowed) comments.
    fn trivia(&mut self, out: &mut Vec<SyntaxElement>, comments: bool) {
        loop {
            match self.peek() {
                Some(' ') | Some('\t') => {
                    let ws = self.take_while(|c| c == ' ' || c == '\t');
                    out.push(token(SyntaxKind::WHITESPACE, ws));
                }
                Some('\n') => {
                    self.pos += 1;
                    out.push(token(SyntaxKind::NEWLINE, "\n".into()));
                }
                Some('#') if comments => {
                    let c = self.take_while(|c| c != '\n');
                    out.push(token(SyntaxKind::COMMENT, c));
                }
                _ => return,
            }
        }
    }

    fn entry(&mut self) -> SyntaxNode {
        let key = self.take_while(|c| c.is_alphanumeric() || c == '_' || c == '-');
        let mut children = vec![SyntaxElement::Node(SyntaxNode {
            kind: SyntaxKind::KEY,
            children: vec![token(SyntaxKind::IDENT, key)],
        })];
        self.trivia(&mut children, false);
        assert_eq!(self.peek(), Some('='));
        self.pos += 1;
        children.push(token(SyntaxKind::EQ, "=".into()));
        self.trivia(&mut children, false);
        children.push(SyntaxElement::Node(self.value()));
        SyntaxNode { kind: SyntaxKind::ENTRY, children }
    }

    fn value(&mut self) -> SyntaxNode {
        let inner = match self.peek() {
            Some('{') => SyntaxElement::Node(self.delimited(SyntaxKind::INLINE_TABLE, '{', '}')),
            Some('[') => SyntaxElement::Node(self.delimited(SyntaxKind::ARRAY, '[', ']')),
            _ => {
                let text = self.take_while(|c| c.is_alphanumeric() || c == '.');
                token(SyntaxKind::INTEGER, text)
            }
        };
        SyntaxNode { kind: SyntaxKind::VALUE, children: vec![inner] }
    }

    fn delimited(&mut self, kind: SyntaxKind, open: char, close: char) -> SyntaxNode {
        let (start, end) = if open == '{' {
            (SyntaxKind::BRACE_START, SyntaxKind::BRACE_END)
        } else {
            (SyntaxKind::BRACKET_START, SyntaxKind::BRACKET_END)
        };
        self.pos += 1;
        let mut children = vec![token(start, open.to_string())];
        loop {
            self.trivia(&mut children, true);
            match self.peek() {
                Some(c) if c == close => {
                    self.pos += 1;
                    children.push(token(end, close.to_string()));
                    break;
                }
                Some(',') => {
                    self.pos += 1;
                    children.push(token(SyntaxKind::COMMA, ",".into()));
                }
                Some(_) => {
                    if kind == SyntaxKind::INLINE_TABLE {
                        children.push(SyntaxElement::Node(self.entry()));
                    } else {
                        children.push(SyntaxElement::Node(self.value()));
                    }
                }
                None => panic!("unterminated"),
            }
        }
        SyntaxNode { kind, children }
    }

    fn root(&mut self) -> SyntaxNode {
        let mut children = Vec::new();
        loop {
            self.trivia(&mut children, true);
            if self.peek().is_none() {
                break;
            }
            children.push(SyntaxElement::Node(self.entry()));
        }
        SyntaxNode { kind: SyntaxKind::ROOT, children }
    }
}

fn parse(src: &str) -> SyntaxNode {
    Reader::new(src).root()
}

fn resolved(src: &str, configured: TomlVersion) -> ResolvedVersion {
    let root = parse(src);
    resolve_version(&root, configured)
}

#[test]
fn detects_compact_inline_table_as_v1_0() {
    assert_eq!(resolved("a = { x = 1 }", TomlVersion::Auto), ResolvedVersion::V1_0);
}

#[test]
fn detects_multiline_inline_table_as_v1_1() {
    assert_eq!(resolved("a = {\n  x = 1,\n}", TomlVersion::Auto), ResolvedVersion::V1_1);
}

#[test]
fn configured_v1_1_overrides_compact_source() {
    assert_eq!(resolved("a = { x = 1 }", TomlVersion::V1_1), ResolvedVersion::V1_1);
}

#[test]
fn configured_v1_0_overrides_multiline_source() {
    assert_eq!(resolved("a = {\n  x = 1,\n}", TomlVersion::V1_0), ResolvedVersion::V1_0);
}

#[test]
fn directive_overrides_auto_detection() {
    assert_eq!(
        resolved("#:toml-version 1.1\na = { x = 1 }", TomlVersion::Auto),
        ResolvedVersion::V1_1
    );
}

#[test]
fn directive_v1_0_overrides_auto_detection() {
    assert_eq!(
        resolved("#:toml-version 1.0\na = {\n  x = 1,\n}", TomlVersion::Auto),
        ResolvedVersion::V1_0
    );
}

#[test]
fn directive_outranks_configured_value() {
    assert_eq!(
        resolved("#:toml-version 1.0\na = { x = 1 }", TomlVersion::V1_1),
        ResolvedVersion::V1_0
    );
}

#[test]
fn unparseable_directive_value_is_inert() {
    assert_eq!(
        resolved("#:toml-version 2.0\na = { x = 1 }", TomlVersion::Auto),
        ResolvedVersion::V1_0
    );
}

#[test]
fn unparseable_directive_value_falls_through_to_detection() {
    assert_eq!(
        resolved("#:toml-version banana\na = {\n  x = 1,\n}", TomlVersion::Auto),
        ResolvedVersion::V1_1
    );
}

#[test]
fn directive_not_at_top_is_ignored() {
    assert_eq!(
        resolved("a = 1\n#:toml-version 1.1\nb = { x = 1 }", TomlVersion::Auto),
        ResolvedVersion::V1_0
    );
}

#[test]
fn plain_comment_is_not_a_directive() {
    assert_eq!(
        resolved("# toml-version 1.1\na = { x = 1 }", TomlVersion::Auto),
        ResolvedVersion::V1_0
    );
}

#[test]
fn detection_reaches_nested_inline_table() {
    assert_eq!(
        resolved("a = [{ x = 1 }, {\n  y = 2,\n}]", TomlVersion::Auto),
        ResolvedVersion::V1_1
    );
}

#[test]
fn from_str_parses_known_values() {
    assert_eq!("1.0".parse::<TomlVersion>().unwrap(), TomlVersion::V1_0);
    assert_eq!("1.1".parse::<TomlVersion>().unwrap(), TomlVersion::V1_1);
    assert_eq!("auto".parse::<TomlVersion>().unwrap(), TomlVersion::Auto);
}

#[test]
fn from_str_rejects_unknown_values() {
    assert!("2.0".parse::<TomlVersion>().is_err());
    assert!("".parse::<TomlVersion>().is_err());
}

#[test]
fn version_names_read_back() {
    for v in [TomlVersion::Auto, TomlVersion::V1_0, TomlVersion::V1_1] {
        assert_eq!(v.as_str().parse::<TomlVersion>().unwrap(), v);
    }
    assert_eq!(TomlVersion::default(), TomlVersion::Auto);
}

#[test]
fn invalid_versions_report_the_rejected_text() {
    let error = TomlVersion::parse_name("2.0").unwrap_err();
    assert_eq!(error.value(), "2.0");
    assert_eq!(error.message(), "invalid TOML version \"2.0\"");
}

#[test]
fn directives_need_the_prefix_and_both_words() {
    assert_eq!(parse_directive("#:toml-version 1.1"), Some(ResolvedVersion::V1_1));
    assert_eq!(parse_directive("#:  toml-version\t1.0  trailing"), Some(ResolvedVersion::V1_0));
    assert_eq!(parse_directive("#: toml-version"), None);
    assert_eq!(parse_directive("# :toml-version 1.1"), None);
    assert_eq!(parse_directive("#:toml-versions 1.1"), None);
    assert_eq!(parse_directive("#:toml-version auto"), None);
}

#[test]
fn the_first_valid_directive_among_leading_comments_wins() {
    let root = parse("# header\n#:toml-version banana\n#:toml-version 1.1\n#:toml-version 1.0\na = 1");
    assert_eq!(directive_version(&root), Some(ResolvedVersion::V1_1));
    for configured in [TomlVersion::Auto, TomlVersion::V1_0, TomlVersion::V1_1] {
        assert_eq!(resolve_version(&root, configured), ResolvedVersion::V1_1);
    }
}

#[test]
fn detection_ignores_newlines_inside_nested_arrays() {
    let root = parse("a = { b = [\n1,\n2] }");
    assert_eq!(detect_version(&root), ResolvedVersion::V1_0);
    let nested = parse("a = { b = {\n c = 1 } }");
    assert_eq!(detect_version(&nested), ResolvedVersion::V1_1);
}
