use vstd::prelude::*;

verus! {

/// The kinds of tokens and nodes in a TOML syntax tree.
#[allow(non_camel_case_types)]
#[derive(Clone, Copy, Debug, PartialEq, Eq, Structural)]
pub enum SyntaxKind {
    WHITESPACE,
    NEWLINE,
    COMMENT,
    IDENT,
    PERIOD,
    COMMA,
    EQ,
    STRING,
    MULTI_LINE_STRING,
    STRING_LITERAL,
    MULTI_LINE_STRING_LITERAL,
    INTEGER,
    INTEGER_HEX,
    INTEGER_OCT,
    INTEGER_BIN,
    FLOAT,
    BOOL,
    DATE_TIME_OFFSET,
    DATE_TIME_LOCAL,
    DATE,
    TIME,
    BRACKET_START,
    BRACKET_END,
    BRACE_START,
    BRACE_END,
    ERROR,
    KEY,
    VALUE,
    TABLE_HEADER,
    TABLE_ARRAY_HEADER,
    ENTRY,
    ARRAY,
    INLINE_TABLE,
    ROOT,
}

/// The kinds of tokens that spell a scalar value.
pub open spec fn spec_is_primitive(kind: SyntaxKind) -> bool {
    match kind {
        SyntaxKind::BOOL | SyntaxKind::DATE | SyntaxKind::DATE_TIME_LOCAL
        | SyntaxKind::DATE_TIME_OFFSET | SyntaxKind::TIME | SyntaxKind::STRING
        | SyntaxKind::MULTI_LINE_STRING | SyntaxKind::STRING_LITERAL
        | SyntaxKind::MULTI_LINE_STRING_LITERAL | SyntaxKind::INTEGER | SyntaxKind::INTEGER_HEX
        | SyntaxKind::INTEGER_OCT | SyntaxKind::INTEGER_BIN => true,
        _ => false,
    }
}

/// Whether a token of this kind spells a scalar value, which value hover
/// documents.
pub fn is_primitive(kind: SyntaxKind) -> (r: bool)
    ensures
        r == spec_is_primitive(kind),
{
    match kind {
        SyntaxKind::BOOL | SyntaxKind::DATE | SyntaxKind::DATE_TIME_LOCAL
        | SyntaxKind::DATE_TIME_OFFSET | SyntaxKind::TIME | SyntaxKind::STRING
        | SyntaxKind::MULTI_LINE_STRING | SyntaxKind::STRING_LITERAL
        | SyntaxKind::MULTI_LINE_STRING_LITERAL | SyntaxKind::INTEGER | SyntaxKind::INTEGER_HEX
        | SyntaxKind::INTEGER_OCT | SyntaxKind::INTEGER_BIN => true,
        _ => false,
    }
}

/// A leaf of the syntax tree: its kind and the source text it covers.
#[derive(Clone, Debug)]
pub struct SyntaxToken {
    pub kind: SyntaxKind,
    pub text: String,
}

/// A child of a syntax node: either a token or another node.
#[derive(Debug)]
pub enum SyntaxElement {
    Token(SyntaxToken),
    Node(SyntaxNode),
}

/// An inner node of the syntax tree with its children in source order.
#[derive(Debug)]
pub struct SyntaxNode {
    pub kind: SyntaxKind,
    pub children: Vec<SyntaxElement>,
}

impl SyntaxElement {
    pub open spec fn spec_kind(self) -> SyntaxKind {
        match self {
            SyntaxElement::Token(t) => t.kind,
            SyntaxElement::Node(n) => n.kind,
        }
    }

    /// The kind of this element.
    pub fn kind(&self) -> (k: SyntaxKind)
        ensures
            k == self.spec_kind(),
    {
        match self {
            SyntaxElement::Token(t) => t.kind,
            SyntaxElement::Node(n) => n.kind,
        }
    }
}

/// Whether some direct child of `children` has the kind `kind`.
pub open spec fn has_child_kind(children: Seq<SyntaxElement>, kind: SyntaxKind) -> bool {
    exists|i: int| 0 <= i < children.len() && (#[trigger] children[i]).spec_kind() == kind
}

/// An inline table written across lines: an `INLINE_TABLE` node with a
/// `NEWLINE` among its direct children.
pub open spec fn is_multiline_inline_table(node: SyntaxNode) -> bool {
    node.kind == SyntaxKind::INLINE_TABLE && has_child_kind(node.children@, SyntaxKind::NEWLINE)
}

/// Whether `node` or any node beneath it is a multi-line inline table.
pub open spec fn contains_multiline_inline_table(node: SyntaxNode) -> bool
    decreases node, 1int,
{
    is_multiline_inline_table(node) || any_contains_multiline_inline_table(node.children@)
}

/// Whether some node among `elems`, or beneath one of them, is a multi-line
/// inline table.
pub open spec fn any_contains_multiline_inline_table(elems: Seq<SyntaxElement>) -> bool
    decreases elems, 0int,
{
    if elems.len() == 0 {
        false
    } else {
        any_contains_multiline_inline_table(elems.drop_last()) || match elems.last() {
            SyntaxElement::Node(n) => contains_multiline_inline_table(n),
            SyntaxElement::Token(_) => false,
        }
    }
}


/// A prefix holding a multi-line inline table makes the whole sequence hold one.
pub proof fn lemma_any_contains_prefix(elems: Seq<SyntaxElement>, k: int)
    requires
        0 <= k <= elems.len(),
        any_contains_multiline_inline_table(elems.take(k)),
    ensures
        any_contains_multiline_inline_table(elems),
    decreases elems.len(),
{
    if k < elems.len() {
        assert(elems.drop_last().take(k) =~= elems.take(k));
        lemma_any_contains_prefix(elems.drop_last(), k);
    } else {
        assert(elems.take(k) =~= elems);
    }
}

/// Whether some element of `children` has kind `kind`.
pub fn has_child_kind_exec(children: &Vec<SyntaxElement>, kind: SyntaxKind) -> (r: bool)
    ensures
        r == has_child_kind(children@, kind),
{
    let mut i: usize = 0;
    while i < children.len()
        invariant
            0 <= i <= children.len(),
            forall|j: int| 0 <= j < i ==> (#[trigger] children@[j]).spec_kind() != kind,
        decreases children.len() - i,
    {
        if children[i].kind() == kind {
            return true;
        }
        i += 1;
    }
    false
}

/// Whether `node` or a node beneath it is an inline table written across
/// lines (a `NEWLINE` among the table's own children, not a nested one's).
pub fn contains_multiline_inline_table_exec(node: &SyntaxNode) -> (r: bool)
    ensures
        r == contains_multiline_inline_table(*node),
    decreases node,
{
    if node.kind == SyntaxKind::INLINE_TABLE && has_child_kind_exec(&node.children, SyntaxKind::NEWLINE) {
        return true;
    }
    let mut i: usize = 0;
    while i < node.children.len()
        invariant
            0 <= i <= node.children.len(),
            !is_multiline_inline_table(*node),
            !any_contains_multiline_inline_table(node.children@.take(i as int)),
        decreases node.children.len() - i,
    {
        proof {
            assert(node.children@.take(i + 1).drop_last() =~= node.children@.take(i as int));
        }
        match &node.children[i] {
            SyntaxElement::Node(child) => {
                assert(decreases_to!(*node => node.children@[i as int]));
                if contains_multiline_inline_table_exec(child) {
                    proof {
                        lemma_any_contains_prefix(node.children@, i + 1);
                    }
                    return true;
                }
            },
            SyntaxElement::Token(_) => {},
        }
        i += 1;
    }
    assert(node.children@.take(i as int) =~= node.children@);
    false
}

} // verus!
