//! The calls into std and outside crates whose behaviour Verus takes on trust,
//! and the types that hold tree-sitter's parser and trees.
use vstd::prelude::*;

use crate::csharp::TreeNode;
use crate::danger::Interval;

verus! {

/// Sorts the intervals by start, then by end, with std's `slice::sort_by_key`
/// and the key `interval_key`, which its documentation describes as a sort:
/// the result holds the same intervals and its keys (pairs, ordered
/// lexicographically) never decrease.
#[verifier::external_body]
pub(crate) fn sort_by_start(v: &mut Vec<Interval>)
    ensures
        final(v)@.to_multiset() == old(v)@.to_multiset(),
        vstd::relations::sorted_by(
            final(v)@,
            (|a: Interval, b: Interval| crate::danger::interval_le(a, b)),
        ),
        crate::danger::starts_sorted(final(v)@),
{
    v.sort_by_key(crate::danger::interval_key);
}


/// std's `str::from_utf8` accepts exactly the well-formed UTF-8 byte
/// sequences; the contract says so with vstd's definition of them.
#[verifier::external_body]
pub(crate) fn is_utf8(bytes: &[u8]) -> (r: bool)
    ensures
        r == vstd::utf8::valid_utf8(bytes@),
{
    std::str::from_utf8(bytes).is_ok()
}

#[verifier::external_type_specification]
#[verifier::external_body]
pub struct ExParser(tree_sitter::Parser);

#[verifier::external_type_specification]
#[verifier::external_body]
pub struct ExTree(tree_sitter::Tree);

/// A tree-sitter parser that has the C# grammar. Only `csharp_parser` makes
/// one.
pub struct CsParser {
    parser: tree_sitter::Parser,
}

/// A tree made by tree-sitter's C# parser, kept with the text it was made
/// of. Only `parse_source` makes one, so the tree is always the parse of
/// that text.
pub struct CsTree {
    source: Vec<u8>,
    tree: tree_sitter::Tree,
}

impl CsTree {
    /// The text that the tree was parsed from.
    pub closed spec fn source(&self) -> Seq<u8> {
        self.source@
    }

    /// The length of the text that the tree was parsed from.
    pub fn source_len(&self) -> (r: usize)
        ensures
            r == self.source().len(),
    {
        self.source.len()
    }
}

/// `tree_sitter::Parser::new`, then `Parser::set_language` with the grammar
/// of `tree_sitter_c_sharp`. `set_language` refuses only a grammar whose ABI
/// version lies outside the range that tree-sitter reads (13 to 15 here) or
/// that has no lexer function; the C# grammar brought here is generated with
/// ABI version 15 and has its lexer, so a parser always comes back.
#[verifier::external_body]
pub(crate) fn csharp_parser() -> (r: Option<CsParser>)
    ensures
        r is Some,
{
    let mut parser = tree_sitter::Parser::new();
    parser.set_language(&tree_sitter_c_sharp::LANGUAGE.into()).ok()?;
    Some(CsParser { parser })
}

/// `tree_sitter::Parser::parse` of `text`, with no earlier tree. It gives no
/// tree only when the parser has no language or a progress callback cancels
/// the parse; a `CsParser` has the C# grammar and no callback, so a tree
/// always comes back. It is kept with a copy of `text`.
#[verifier::external_body]
pub(crate) fn parse_source(parser: &mut CsParser, text: &[u8]) -> (r: Option<CsTree>)
    ensures
        r is Some,
        r matches Some(t) ==> t.source() == text@,
{
    let tree = parser.parser.parse(text, None)?;
    Some(CsTree { source: text.to_vec(), tree })
}

/// `Node::descendant_count` of the root (`Tree::root_node`): the number of
/// nodes of the tree, the root included.
#[verifier::external_body]
pub(crate) fn tree_size(t: &CsTree) -> (r: usize)
    ensures
        r == crate::csharp::csharp_nodes(t.source()).len(),
{
    t.tree.root_node().descendant_count()
}

/// Node `i` of the tree in the order of `TreeCursor::goto_descendant` (depth
/// first, a node before its children): a cursor made by `Tree::walk` is moved
/// there and `TreeCursor::depth` is read, with the node's (`TreeCursor::node`)
/// `kind`, `is_named`, `is_error`, `has_error`, `start_byte`, `end_byte` and
/// the row of `start_position`.
#[verifier::external_body]
pub(crate) fn tree_node<'a>(t: &'a CsTree, i: usize) -> (r: TreeNode<'a>)
    requires
        i < crate::csharp::csharp_nodes(t.source()).len(),
    ensures
        r.facts() == crate::csharp::csharp_nodes(t.source())[i as int],
{
    let mut cursor = t.tree.walk();
    cursor.goto_descendant(i);
    let n = cursor.node();
    TreeNode {
        kind: n.kind(), named: n.is_named(), error: n.is_error(), has_error: n.has_error(),
        start: n.start_byte(), end: n.end_byte(), start_row: n.start_position().row,
        depth: cursor.depth() as usize,
    }
}

/// `Node::named_descendant_for_byte_range(pos, pos)` on the root: the start
/// and end bytes of the node that its descent finds, the smallest named node
/// that spans `pos` or else the root itself. The result depends on the parsed text and `pos` alone, and
/// `csharp_named_span` names it.
#[verifier::external_body]
pub(crate) fn named_span_at(t: &CsTree, pos: usize) -> (r: Option<(usize, usize)>)
    ensures
        r == crate::csharp::csharp_named_span(t.source(), pos),
{
    match t.tree.root_node().named_descendant_for_byte_range(pos, pos) {
        Some(n) => Some((n.start_byte(), n.end_byte())),
        None => None,
    }
}

/// `serde_json::from_str` into a `serde_json::Value`, then `Value::get` with
/// `outer` and with `inner`, then `Value::as_str`: the JSON string at
/// `outer.inner` in the text, when the text is JSON and that member is a
/// string. The result depends on the three texts alone, and
/// `json_member_text` names it.
#[verifier::external_body]
pub(crate) fn json_member_string(text: &str, outer: &str, inner: &str) -> (r: Option<String>)
    ensures
        (match r {
            Some(s) => Some(s@),
            None => None,
        }) == crate::hook::json_member_text(text@, outer@, inner@),
{
    let value: serde_json::Value = serde_json::from_str(text).ok()?;
    value.get(outer)?.get(inner)?.as_str().map(String::from)
}

} // verus!
