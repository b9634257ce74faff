//! Parsing C# with tree-sitter, and reading the parser's tree into the node
//! table of `syntax`.
use vstd::prelude::*;

use crate::syntax::{kind_of, spec_kind_of, SyntaxNode, SyntaxTree};
use crate::trusted::{csharp_parser, named_span_at, parse_source, tree_node, tree_size, CsTree};

verus! {

/// What the library reads of one node of tree-sitter's tree: its grammar
/// name, whether it is named, whether it is a syntax error, whether it holds
/// one, its start and end bytes, the row it starts on and its depth below the
/// root.
pub type NodeFacts = (Seq<char>, bool, bool, bool, usize, usize, usize, usize);

/// The nodes of tree-sitter's C# parse of `source`, depth first with a node
/// before its children (the order of the descendant index), as `NodeFacts`.
pub uninterp spec fn csharp_nodes(source: Seq<u8>) -> Seq<NodeFacts>;

/// The start and end bytes of the node of tree-sitter's C# parse of `source`
/// that `named_descendant_for_byte_range(pos, pos)` finds from the root: the
/// smallest named node that spans the byte position `pos`, or the root when
/// its descent finds none.
pub uninterp spec fn csharp_named_span(source: Seq<u8>, pos: usize) -> Option<(usize, usize)>;

/// One node of tree-sitter's tree, read as plain values.
pub struct TreeNode<'a> {
    pub kind: &'a str,
    pub named: bool,
    pub error: bool,
    pub has_error: bool,
    pub start: usize,
    pub end: usize,
    pub start_row: usize,
    pub depth: usize,
}

impl<'a> TreeNode<'a> {
    pub open spec fn facts(&self) -> NodeFacts {
        (
            self.kind@,
            self.named,
            self.error,
            self.has_error,
            self.start,
            self.end,
            self.start_row,
            self.depth,
        )
    }
}

/// A C# source parsed by tree-sitter: the parser's own tree, and the same tree
/// as a node table.
pub struct ParsedTree {
    pub tree: CsTree,
    pub syntax: SyntaxTree,
}

/// What parsing a source comes to.
pub enum ParseOutcome {
    /// The parser did not accept the C# grammar.
    ParserUnavailable,
    /// The parser gave no tree, or a tree that could not be read into a table.
    Failed,
    Parsed(ParsedTree),
}

/// The depths of the nodes, in table order.
pub open spec fn depths(items: Seq<NodeFacts>) -> Seq<usize> {
    Seq::new(items.len(), |k: int| items[k].7)
}

/// Node `j` is the parent of node `i` in a depth-first list with depths `ds`:
/// the last node before `i` that lies higher than it.
pub open spec fn last_shallower(ds: Seq<usize>, i: int, j: int) -> bool {
    &&& 0 <= j < i < ds.len()
    &&& ds[j] < ds[i]
    &&& forall|k: int| j < k < i ==> ds[i] <= #[trigger] ds[k]
}

/// Node `j` is the first node after `i` that does not lie below it: where the
/// subtree of `i` ends.
pub open spec fn first_not_deeper(ds: Seq<usize>, i: int, j: int) -> bool {
    &&& 0 <= i < j < ds.len()
    &&& ds[j] <= ds[i]
    &&& forall|k: int| i < k < j ==> ds[i] < #[trigger] ds[k]
}

/// The parent link of node `i`.
pub open spec fn parent_link(ds: Seq<usize>, i: int, p: Option<usize>) -> bool {
    match p {
        Some(j) => last_shallower(ds, i, j as int),
        None => forall|j: int| !#[trigger] last_shallower(ds, i, j),
    }
}

/// The next-sibling link of node `i`: the node where its subtree ends, when
/// that node lies at the same depth.
pub open spec fn sibling_link(ds: Seq<usize>, i: int, s: Option<usize>) -> bool {
    match s {
        Some(j) => first_not_deeper(ds, i, j as int) && ds[j as int] == ds[i],
        None => forall|j: int| #[trigger] first_not_deeper(ds, i, j) ==> ds[j] != ds[i],
    }
}

/// The first-child link of node `i`: the next node, when it lies below `i`.
pub open spec fn child_link(ds: Seq<usize>, i: int) -> Option<usize> {
    if i + 1 < ds.len() && ds[i] < ds[i + 1] {
        Some((i + 1) as usize)
    } else {
        None
    }
}

/// `n` is entry `i` of the table read from the list `items`.
pub open spec fn node_from(items: Seq<NodeFacts>, i: int, n: SyntaxNode) -> bool {
    let f = items[i];
    let ds = depths(items);
    &&& n.kind == spec_kind_of(f.0)
    &&& n.named == f.1
    &&& n.error == f.2
    &&& n.has_error == f.3
    &&& n.start == f.4
    &&& n.end == f.5
    &&& n.start_row == f.6
    &&& parent_link(ds, i, n.parent)
    &&& n.first_child == child_link(ds, i)
    &&& sibling_link(ds, i, n.next_sibling)
}

/// `ns` is the table read from the list `items`: one entry per node, in the
/// same order, linked by the depths.
pub open spec fn table_from(items: Seq<NodeFacts>, ns: Seq<SyntaxNode>) -> bool {
    &&& ns.len() == items.len()
    &&& forall|i: int| 0 <= i < ns.len() ==> node_from(items, i, #[trigger] ns[i])
}

/// The table read from the list `items` is well formed and fits a source of
/// length `len`.
pub open spec fn table_ok(items: Seq<NodeFacts>, len: int) -> bool {
    exists|ns: Seq<SyntaxNode>|
        table_from(items, ns) && crate::syntax::nodes_ok(ns) && crate::syntax::nodes_fit(ns, len)
}

/// The parent of node `i`: the last node before it that lies higher.
fn parent_of(ds: &Vec<usize>, i: usize) -> (r: Option<usize>)
    requires
        i < ds@.len(),
    ensures
        parent_link(ds@, i as int, r),
{
    let mut j: usize = i;
    while j > 0
        invariant
            j <= i < ds@.len(),
            forall|k: int| j <= k < i ==> ds@[i as int] <= #[trigger] ds@[k],
        decreases j,
    {
        j = j - 1;
        if ds[j] < ds[i] {
            return Some(j);
        }
    }
    None
}

/// The next sibling of node `i`: the node where its subtree ends, when that
/// node lies at the same depth.
fn sibling_of(ds: &Vec<usize>, i: usize) -> (r: Option<usize>)
    requires
        i < ds@.len(),
    ensures
        sibling_link(ds@, i as int, r),
{
    let len = ds.len();
    let mut j: usize = i + 1;
    while j < len
        invariant
            len == ds@.len(),
            i < j <= ds@.len(),
            forall|k: int| i < k < j ==> ds@[i as int] < #[trigger] ds@[k],
        decreases ds@.len() - j,
    {
        if ds[j] <= ds[i] {
            proof {
                assert(first_not_deeper(ds@, i as int, j as int));
                assert forall|m: int| #[trigger] first_not_deeper(ds@, i as int, m) implies m
                    == j by {
                    if m < j {
                        assert(ds@[i as int] < ds@[m]);
                    }
                    if m > j {
                        assert(ds@[i as int] < ds@[j as int]);
                    }
                }
            }
            if ds[j] == ds[i] {
                return Some(j);
            }
            return None;
        }
        j = j + 1;
    }
    None
}

/// The table read from a list of nodes is determined by the list.
pub proof fn lemma_table_unique(items: Seq<NodeFacts>, ns1: Seq<SyntaxNode>, ns2: Seq<SyntaxNode>)
    requires
        table_from(items, ns1),
        table_from(items, ns2),
    ensures
        ns1 == ns2,
{
    let ds = depths(items);
    assert forall|i: int| 0 <= i < ns1.len() implies ns1[i] == ns2[i] by {
        let (a, b) = (ns1[i], ns2[i]);
        assert(node_from(items, i, a));
        assert(node_from(items, i, b));
        match (a.parent, b.parent) {
            (Some(p), Some(q)) => {
                assert(last_shallower(ds, i, p as int));
                assert(last_shallower(ds, i, q as int));
                if p < q {
                    assert(ds[i] <= ds[p as int]);
                }
                if q < p {
                    assert(ds[i] <= ds[q as int]);
                }
            },
            (Some(p), None) => {
                assert(last_shallower(ds, i, p as int));
            },
            (None, Some(q)) => {
                assert(last_shallower(ds, i, q as int));
            },
            (None, None) => {},
        }
        match (a.next_sibling, b.next_sibling) {
            (Some(p), Some(q)) => {
                assert(first_not_deeper(ds, i, p as int));
                assert(first_not_deeper(ds, i, q as int));
                if p < q {
                    assert(ds[i] < ds[p as int]);
                }
                if q < p {
                    assert(ds[i] < ds[q as int]);
                }
            },
            (Some(p), None) => {
                assert(first_not_deeper(ds, i, p as int));
            },
            (None, Some(q)) => {
                assert(first_not_deeper(ds, i, q as int));
            },
            (None, None) => {},
        }
    }
    assert(ns1 =~= ns2);
}

/// Reads the tree into a node table: every node in depth-first order, with
/// its parent, first child and next sibling found from the depths. Nothing is
/// returned when the table would not be well formed or would not fit the
/// source.
fn read_tree(t: &CsTree) -> (r: Option<SyntaxTree>)
    ensures
        r is Some <==> table_ok(csharp_nodes(t.source()), t.source().len() as int),
        r matches Some(st) ==> table_from(csharp_nodes(t.source()), st.nodes@)
            && st.well_formed() && st.fits(t.source().len() as int),
{
    let ghost items = csharp_nodes(t.source());
    let n = tree_size(t);
    let mut read: Vec<TreeNode> = Vec::new();
    let mut ds: Vec<usize> = Vec::new();
    let mut i: usize = 0;
    while i < n
        invariant
            n == items.len(),
            items == csharp_nodes(t.source()),
            i <= n,
            read@.len() == i,
            ds@.len() == i,
            forall|k: int| 0 <= k < i ==> (#[trigger] read@[k]).facts() == items[k],
            forall|k: int| 0 <= k < i ==> #[trigger] ds@[k] == items[k].7,
        decreases n - i,
    {
        let node = tree_node(t, i);
        ds.push(node.depth);
        read.push(node);
        i = i + 1;
    }
    assert(ds@ =~= depths(items));
    let mut nodes: Vec<SyntaxNode> = Vec::new();
    let mut i: usize = 0;
    while i < n
        invariant
            n == items.len(),
            read@.len() == n,
            ds@ == depths(items),
            forall|k: int| 0 <= k < n ==> (#[trigger] read@[k]).facts() == items[k],
            i <= n,
            nodes@.len() == i,
            forall|k: int| 0 <= k < i ==> node_from(items, k, #[trigger] nodes@[k]),
        decreases n - i,
    {
        let f = &read[i];
        assert(f.facts() == items[i as int]);
        let parent = parent_of(&ds, i);
        let next_sibling = sibling_of(&ds, i);
        let first_child = if i + 1 < n && ds[i] < ds[i + 1] {
            Some(i + 1)
        } else {
            None
        };
        let node = SyntaxNode {
            kind: kind_of(f.kind),
            named: f.named,
            error: f.error,
            has_error: f.has_error,
            start: f.start,
            end: f.end,
            start_row: f.start_row,
            parent,
            first_child,
            next_sibling,
        };
        assert(node_from(items, i as int, node));
        nodes.push(node);
        i = i + 1;
    }
    assert(table_from(items, nodes@));
    let ghost built = nodes@;
    let r = SyntaxTree::from_nodes(nodes, t.source_len());
    proof {
        if r is None {
            assert forall|ns: Seq<SyntaxNode>|
                table_from(items, ns) implies !(crate::syntax::nodes_ok(ns)
                && crate::syntax::nodes_fit(ns, t.source().len() as int)) by {
                lemma_table_unique(items, ns, built);
            }
        }
    }
    r
}

/// Parses `body` as C# and reads the tree into a node table. The parser is
/// always available; the outcome is a failure exactly when the table read
/// from tree-sitter's nodes is not well formed or does not fit `body`.
pub fn parse_csharp(body: &[u8]) -> (r: ParseOutcome)
    ensures
        !(r is ParserUnavailable),
        r is Failed <==> !table_ok(csharp_nodes(body@), body@.len() as int),
        r matches ParseOutcome::Parsed(p) ==> {
            &&& p.tree.source() == body@
            &&& table_from(csharp_nodes(body@), p.syntax.nodes@)
            &&& p.syntax.well_formed()
            &&& p.syntax.fits(body@.len() as int)
        },
{
    let mut parser = match csharp_parser() {
        Some(p) => p,
        None => {
            return ParseOutcome::ParserUnavailable;
        },
    };
    let tree = match parse_source(&mut parser, body) {
        Some(t) => t,
        None => {
            return ParseOutcome::Failed;
        },
    };
    match read_tree(&tree) {
        Some(syntax) => ParseOutcome::Parsed(ParsedTree { tree, syntax }),
        None => ParseOutcome::Failed,
    }
}

/// Node `a` lies above node `j`: it is reached from `j` by following parent
/// links.
pub open spec fn below(ns: Seq<SyntaxNode>, a: int, j: int) -> bool
    decreases j,
{
    if 0 <= j < ns.len() {
        match ns[j].parent {
            Some(p) => if 0 <= p < j {
                p == a || below(ns, a, p as int)
            } else {
                false
            },
            None => false,
        }
    } else {
        false
    }
}

/// A node lies above only nodes that come after it in the table.
pub proof fn lemma_below_after(ns: Seq<SyntaxNode>, a: int, j: int)
    requires
        below(ns, a, j),
    ensures
        a < j,
    decreases j,
{
    let p = ns[j].parent.unwrap();
    if p != a {
        lemma_below_after(ns, a, p as int);
    }
}

/// Node `i` of the table is a named node with the byte range `span`.
pub open spec fn span_candidate(ns: Seq<SyntaxNode>, span: (usize, usize), i: int) -> bool {
    &&& 0 <= i < ns.len()
    &&& ns[i].named
    &&& ns[i].start == span.0
    &&& ns[i].end == span.1
}

/// Node `i` is a named node with the byte range `span`, and no other such
/// node lies below it: the deepest of nested nodes that share the range.
pub open spec fn deepest_candidate(ns: Seq<SyntaxNode>, span: (usize, usize), i: int) -> bool {
    &&& span_candidate(ns, span, i)
    &&& forall|j: int| #[trigger] span_candidate(ns, span, j) ==> !below(ns, i, j)
}

/// `r` is the table's entry for the node that the parser found, given by its
/// byte range `span`: the first named node with that range in table order
/// that has no such node below it. Among nested nodes with one range this is
/// the deepest, and among siblings the first, as the parser's descent from
/// the root takes them.
pub open spec fn is_anchor(ns: Seq<SyntaxNode>, span: Option<(usize, usize)>, r: Option<usize>) -> bool {
    match span {
        None => r is None,
        Some(sp) => match r {
            Some(i) => deepest_candidate(ns, sp, i as int) && forall|k: int|
                0 <= k < i ==> !#[trigger] deepest_candidate(ns, sp, k),
            None => forall|k: int| !#[trigger] deepest_candidate(ns, sp, k),
        },
    }
}

/// Whether node `a` lies above node `j`.
fn is_below(syntax: &SyntaxTree, a: usize, j: usize) -> (r: bool)
    requires
        j < syntax.nodes@.len(),
    ensures
        r == below(syntax.nodes@, a as int, j as int),
{
    let ghost ns = syntax.nodes@;
    let mut cur: usize = j;
    loop
        invariant
            ns == syntax.nodes@,
            cur < ns.len(),
            below(ns, a as int, j as int) == below(ns, a as int, cur as int),
        decreases cur,
    {
        match syntax.nodes[cur].parent {
            Some(p) => {
                if p >= cur {
                    return false;
                }
                if p == a {
                    return true;
                }
                cur = p;
            },
            None => {
                return false;
            },
        }
    }
}

/// The table's entry for the node that the parser found, given by its byte
/// range: the first named node with that range that has no such node below
/// it.
pub fn anchor_in_table(syntax: &SyntaxTree, span: Option<(usize, usize)>) -> (r: Option<usize>)
    ensures
        is_anchor(syntax.nodes@, span, r),
{
    let (lo, hi) = match span {
        Some(sp) => sp,
        None => {
            return None;
        },
    };
    let ghost sp = (lo, hi);
    let ghost ns = syntax.nodes@;
    let n = syntax.nodes.len();
    let mut i: usize = 0;
    while i < n
        invariant
            ns == syntax.nodes@,
            n == ns.len(),
            sp == (lo, hi),
            span == Some(sp),
            i <= n,
            forall|k: int| 0 <= k < i ==> !#[trigger] deepest_candidate(ns, sp, k),
        decreases n - i,
    {
        let c = syntax.nodes[i];
        if c.named && c.start == lo && c.end == hi {
            assert(span_candidate(ns, sp, i as int));
            let mut j: usize = i + 1;
            let mut deepest = true;
            while j < n
                invariant
                    ns == syntax.nodes@,
                    n == ns.len(),
                    sp == (lo, hi),
                    i < j <= n,
                    deepest ==> forall|m: int|
                        i < m < j ==> !(#[trigger] span_candidate(ns, sp, m) && below(
                            ns,
                            i as int,
                            m,
                        )),
                    !deepest ==> !deepest_candidate(ns, sp, i as int),
                decreases n - j,
            {
                let d = syntax.nodes[j];
                if d.named && d.start == lo && d.end == hi && is_below(syntax, i, j) {
                    assert(span_candidate(ns, sp, j as int));
                    deepest = false;
                }
                j = j + 1;
            }
            if deepest {
                assert forall|m: int| #[trigger] span_candidate(ns, sp, m) implies !below(
                    ns,
                    i as int,
                    m,
                ) by {
                    if below(ns, i as int, m) {
                        lemma_below_after(ns, i as int, m);
                    }
                }
                return Some(i);
            }
        }
        i = i + 1;
    }
    None
}

/// The anchor at `pos`: the table's entry, matched by its byte range, for the
/// node that the parser finds for `pos`: the smallest named node that spans
/// it, or the root when none does (before the first token, say).
pub fn anchor_at(parsed: &ParsedTree, pos: usize) -> (r: Option<usize>)
    ensures
        is_anchor(parsed.syntax.nodes@, csharp_named_span(parsed.tree.source(), pos), r),
{
    let span = named_span_at(&parsed.tree, pos);
    anchor_in_table(&parsed.syntax, span)
}

} // verus!
