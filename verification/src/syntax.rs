//! The syntax tree as plain values: one entry per node, in the order in which
//! a depth-first walk from the root meets them, linked by indices.
use vstd::prelude::*;

verus! {

/// The node kinds that the indentation rules tell apart.
#[derive(Clone, Copy, Debug, PartialEq, Eq, Structural)]
pub enum NodeKind {
    CompilationUnit,
    SwitchSection,
    TypeArgumentList,
    TypeParameterList,
    LabeledStatement,
    Comment,
    /// Any kind whose name starts with `preproc_`.
    Preprocessor,
    /// `verbatim_string_literal`, `raw_string_literal`, `string_literal`
    /// or `interpolated_string_expression`.
    StringLiteral,
    OpenBrace,
    CloseBrace,
    OpenParen,
    CloseParen,
    OpenBracket,
    CloseBracket,
    OpenAngle,
    CloseAngle,
    Other,
}

/// `s` starts with `p`.
pub open spec fn has_prefix(s: Seq<char>, p: Seq<char>) -> bool {
    p.len() <= s.len() && s.subrange(0, p.len() as int) == p
}

/// The kind of a node whose grammar name is `name`.
pub open spec fn spec_kind_of(name: Seq<char>) -> NodeKind {
    if name == "compilation_unit"@ {
        NodeKind::CompilationUnit
    } else if name == "switch_section"@ {
        NodeKind::SwitchSection
    } else if name == "type_argument_list"@ {
        NodeKind::TypeArgumentList
    } else if name == "type_parameter_list"@ {
        NodeKind::TypeParameterList
    } else if name == "labeled_statement"@ {
        NodeKind::LabeledStatement
    } else if name == "comment"@ {
        NodeKind::Comment
    } else if name == "verbatim_string_literal"@ || name == "raw_string_literal"@ || name
        == "string_literal"@ || name == "interpolated_string_expression"@ {
        NodeKind::StringLiteral
    } else if name == "{"@ {
        NodeKind::OpenBrace
    } else if name == "}"@ {
        NodeKind::CloseBrace
    } else if name == "("@ {
        NodeKind::OpenParen
    } else if name == ")"@ {
        NodeKind::CloseParen
    } else if name == "["@ {
        NodeKind::OpenBracket
    } else if name == "]"@ {
        NodeKind::CloseBracket
    } else if name == "<"@ {
        NodeKind::OpenAngle
    } else if name == ">"@ {
        NodeKind::CloseAngle
    } else if has_prefix(name, "preproc_"@) {
        NodeKind::Preprocessor
    } else {
        NodeKind::Other
    }
}

/// Each grammar name that the rules tell apart gives its own kind: the
/// container names, the labeled statement, comments, the four string literal
/// names, the delimiter tokens, and every name that starts with `preproc_`.
pub proof fn lemma_kind_names(name: Seq<char>)
    ensures
        name == "compilation_unit"@ ==> spec_kind_of(name) == NodeKind::CompilationUnit,
        name == "switch_section"@ ==> spec_kind_of(name) == NodeKind::SwitchSection,
        name == "type_argument_list"@ ==> spec_kind_of(name) == NodeKind::TypeArgumentList,
        name == "type_parameter_list"@ ==> spec_kind_of(name) == NodeKind::TypeParameterList,
        name == "labeled_statement"@ ==> spec_kind_of(name) == NodeKind::LabeledStatement,
        name == "comment"@ ==> spec_kind_of(name) == NodeKind::Comment,
        name == "verbatim_string_literal"@ ==> spec_kind_of(name) == NodeKind::StringLiteral,
        name == "raw_string_literal"@ ==> spec_kind_of(name) == NodeKind::StringLiteral,
        name == "string_literal"@ ==> spec_kind_of(name) == NodeKind::StringLiteral,
        name == "interpolated_string_expression"@ ==> spec_kind_of(name) == NodeKind::StringLiteral,
        name == "{"@ ==> spec_kind_of(name) == NodeKind::OpenBrace,
        name == "}"@ ==> spec_kind_of(name) == NodeKind::CloseBrace,
        name == "("@ ==> spec_kind_of(name) == NodeKind::OpenParen,
        name == ")"@ ==> spec_kind_of(name) == NodeKind::CloseParen,
        name == "["@ ==> spec_kind_of(name) == NodeKind::OpenBracket,
        name == "]"@ ==> spec_kind_of(name) == NodeKind::CloseBracket,
        name == "<"@ ==> spec_kind_of(name) == NodeKind::OpenAngle,
        name == ">"@ ==> spec_kind_of(name) == NodeKind::CloseAngle,
        has_prefix(name, "preproc_"@) ==> spec_kind_of(name) == NodeKind::Preprocessor,
{
    reveal_strlit("compilation_unit");
    reveal_strlit("switch_section");
    reveal_strlit("type_argument_list");
    reveal_strlit("type_parameter_list");
    reveal_strlit("labeled_statement");
    reveal_strlit("comment");
    reveal_strlit("verbatim_string_literal");
    reveal_strlit("raw_string_literal");
    reveal_strlit("string_literal");
    reveal_strlit("interpolated_string_expression");
    reveal_strlit("{");
    reveal_strlit("}");
    reveal_strlit("(");
    reveal_strlit(")");
    reveal_strlit("[");
    reveal_strlit("]");
    reveal_strlit("<");
    reveal_strlit(">");
    reveal_strlit("preproc_");
    if name.len() == 1 {
        assert(name != "compilation_unit"@);
        assert(name != "switch_section"@);
        assert(name != "type_argument_list"@);
        assert(name != "type_parameter_list"@);
        assert(name != "labeled_statement"@);
        assert(name != "comment"@);
        assert(name != "verbatim_string_literal"@);
        assert(name != "raw_string_literal"@);
        assert(name != "string_literal"@);
        assert(name != "interpolated_string_expression"@);
        assert(!has_prefix(name, "preproc_"@));
        assert("{"@[0] == '{' && "}"@[0] == '}' && "("@[0] == '(' && ")"@[0] == ')');
        assert("["@[0] == '[' && "]"@[0] == ']' && "<"@[0] == '<' && ">"@[0] == '>');
    }
    if name == "compilation_unit"@ || name == "switch_section"@ || name == "type_argument_list"@
        || name == "type_parameter_list"@ || name == "labeled_statement"@ || name == "comment"@
        || name == "verbatim_string_literal"@ || name == "raw_string_literal"@ || name
        == "string_literal"@ || name == "interpolated_string_expression"@ {
        assert(name[0] != '{' && name[0] != '}' && name[0] != '(' && name[0] != ')');
    }
    if name == "switch_section"@ {
        assert(name[0] != "compilation_unit"@[0]);
    }
    if name == "type_parameter_list"@ {
        assert(name[5] != "type_argument_list"@[5]);
    }
    if name == "raw_string_literal"@ || name == "string_literal"@ {
        assert(name[0] != "verbatim_string_literal"@[0]);
    }
    if name == "string_literal"@ {
        assert(name[0] != "raw_string_literal"@[0]);
        assert(name[1] != "switch_section"@[1]);
    }
    if name == "raw_string_literal"@ {
        assert(name[0] != "type_argument_list"@[0]);
    }
    if has_prefix(name, "preproc_"@) {
        assert(name[0] == name.subrange(0, 8)[0]);
        assert(name[0] == 'p');
    }
}

/// Whether `s` and `t` hold the same characters.
pub fn text_eq(s: &str, t: &str) -> (r: bool)
    ensures
        r == (s@ == t@),
{
    let n = s.unicode_len();
    let m = t.unicode_len();
    if n != m {
        return false;
    }
    let mut i: usize = 0;
    while i < n
        invariant
            n == s@.len(),
            m == t@.len(),
            n == m,
            i <= n,
            forall|k: int| 0 <= k < i ==> s@[k] == t@[k],
        decreases n - i,
    {
        if s.get_char(i) != t.get_char(i) {
            return false;
        }
        i = i + 1;
    }
    assert(s@ =~= t@);
    true
}

/// Whether `s` starts with `p`.
pub fn text_has_prefix(s: &str, p: &str) -> (r: bool)
    ensures
        r == has_prefix(s@, p@),
{
    let n = s.unicode_len();
    let m = p.unicode_len();
    if m > n {
        return false;
    }
    let mut i: usize = 0;
    while i < m
        invariant
            n == s@.len(),
            m == p@.len(),
            m <= n,
            i <= m,
            forall|k: int| 0 <= k < i ==> s@[k] == p@[k],
        decreases m - i,
    {
        if s.get_char(i) != p.get_char(i) {
            assert(s@.subrange(0, m as int)[i as int] != p@[i as int]);
            return false;
        }
        i = i + 1;
    }
    assert(s@.subrange(0, m as int) =~= p@);
    true
}

/// The kind of a node whose grammar name is `name`.
pub fn kind_of(name: &str) -> (k: NodeKind)
    ensures
        k == spec_kind_of(name@),
{
    if text_eq(name, "compilation_unit") {
        NodeKind::CompilationUnit
    } else if text_eq(name, "switch_section") {
        NodeKind::SwitchSection
    } else if text_eq(name, "type_argument_list") {
        NodeKind::TypeArgumentList
    } else if text_eq(name, "type_parameter_list") {
        NodeKind::TypeParameterList
    } else if text_eq(name, "labeled_statement") {
        NodeKind::LabeledStatement
    } else if text_eq(name, "comment") {
        NodeKind::Comment
    } else if text_eq(name, "verbatim_string_literal") || text_eq(name, "raw_string_literal")
        || text_eq(name, "string_literal") || text_eq(name, "interpolated_string_expression") {
        NodeKind::StringLiteral
    } else if text_eq(name, "{") {
        NodeKind::OpenBrace
    } else if text_eq(name, "}") {
        NodeKind::CloseBrace
    } else if text_eq(name, "(") {
        NodeKind::OpenParen
    } else if text_eq(name, ")") {
        NodeKind::CloseParen
    } else if text_eq(name, "[") {
        NodeKind::OpenBracket
    } else if text_eq(name, "]") {
        NodeKind::CloseBracket
    } else if text_eq(name, "<") {
        NodeKind::OpenAngle
    } else if text_eq(name, ">") {
        NodeKind::CloseAngle
    } else if text_has_prefix(name, "preproc_") {
        NodeKind::Preprocessor
    } else {
        NodeKind::Other
    }
}

/// One node of the tree.
#[derive(Clone, Copy, Debug)]
pub struct SyntaxNode {
    pub kind: NodeKind,
    /// A named node, as opposed to an anonymous token.
    pub named: bool,
    /// The node is itself a syntax error.
    pub error: bool,
    /// The node is, or contains, a syntax error or a missing node.
    pub has_error: bool,
    pub start: usize,
    pub end: usize,
    /// The row (counted from 0) on which the node starts.
    pub start_row: usize,
    pub parent: Option<usize>,
    pub first_child: Option<usize>,
    pub next_sibling: Option<usize>,
}

/// The nodes of a tree; the root is the first one.
#[derive(Debug)]
pub struct SyntaxTree {
    pub nodes: Vec<SyntaxNode>,
}

/// Node `i` has an ordered byte range, and its links point forward (children
/// and later siblings) or backward (parent), inside the table. It lies within
/// its parent, and a parent holds every syntax error that its child holds.
pub open spec fn node_ok(ns: Seq<SyntaxNode>, i: int) -> bool {
    let n = ns[i];
    &&& n.start <= n.end
    &&& (n.parent matches Some(p) ==> {
        &&& p < i
        &&& ns[p as int].start <= n.start
        &&& n.end <= ns[p as int].end
        &&& (n.has_error ==> ns[p as int].has_error)
    })
    &&& (n.first_child matches Some(c) ==> i < c < ns.len())
    &&& (n.next_sibling matches Some(s) ==> i < s < ns.len())
}

/// The table is not empty and every node is in order.
pub open spec fn nodes_ok(ns: Seq<SyntaxNode>) -> bool {
    &&& ns.len() > 0
    &&& forall|i: int| 0 <= i < ns.len() ==> #[trigger] node_ok(ns, i)
}

/// Every node of a well-formed table is in order.
pub proof fn lemma_node_ok(ns: Seq<SyntaxNode>, i: int)
    requires
        nodes_ok(ns),
        0 <= i < ns.len(),
    ensures
        node_ok(ns, i),
{
}

/// Every node ends within a source of length `len`.
pub open spec fn nodes_fit(ns: Seq<SyntaxNode>, len: int) -> bool {
    forall|i: int| 0 <= i < ns.len() ==> (#[trigger] ns[i]).end <= len
}

impl SyntaxTree {
    pub open spec fn well_formed(&self) -> bool {
        nodes_ok(self.nodes@)
    }

    pub open spec fn fits(&self, len: int) -> bool {
        nodes_fit(self.nodes@, len)
    }

    /// A tree made of `nodes`, when they are well formed and fit a source of
    /// `source_len` bytes.
    pub fn from_nodes(nodes: Vec<SyntaxNode>, source_len: usize) -> (r: Option<SyntaxTree>)
        ensures
            r is Some <==> nodes_ok(nodes@) && nodes_fit(nodes@, source_len as int),
            r matches Some(t) ==> t.nodes@ == nodes@,
    {
        if nodes.len() == 0 {
            return None;
        }
        let mut i: usize = 0;
        while i < nodes.len()
            invariant
                i <= nodes@.len(),
                forall|k: int| 0 <= k < i ==> #[trigger] node_ok(nodes@, k),
                forall|k: int| 0 <= k < i ==> (#[trigger] nodes@[k]).end <= source_len,
            decreases nodes@.len() - i,
        {
            let n = nodes[i];
            let ok = n.start <= n.end && n.end <= source_len && match n.parent {
                Some(p) => p < i && nodes[p].start <= n.start && n.end <= nodes[p].end && (
                !n.has_error || nodes[p].has_error),
                None => true,
            } && match n.first_child {
                Some(c) => i < c && c < nodes.len(),
                None => true,
            } && match n.next_sibling {
                Some(s) => i < s && s < nodes.len(),
                None => true,
            };
            if !ok {
                assert(!node_ok(nodes@, i as int) || nodes@[i as int].end > source_len);
                return None;
            }
            i = i + 1;
        }
        Some(SyntaxTree { nodes })
    }
}

} // verus!
