//! What holds of every repair, whatever the tree and the danger zones.
use vstd::prelude::*;

use crate::danger::Interval;
use crate::syntax::SyntaxNode;

verus! {

/// A line that the repair changes was blank (spaces and tabs only), lies
/// outside every danger zone, and has no container with a syntax error; its
/// new content is a non-empty run of spaces and tabs, different from the old.
pub proof fn lemma_only_blank_lines_change(
    body: Seq<u8>,
    ns: Seq<SyntaxNode>,
    danger: Seq<Interval>,
    anchors: Seq<Option<usize>>,
    k: int,
)
    requires
        body.len() <= usize::MAX,
        crate::syntax::nodes_ok(ns),
        crate::syntax::nodes_fit(ns, body.len() as int),
        0 <= k < crate::lines::spec_lines(body).len(),
        crate::fix::choices(body, ns, danger, anchors)[k] is Some,
    ensures
        ({
            let l = crate::lines::spec_lines(body)[k];
            let content = crate::lines::content_of(body, l);
            let r = crate::fix::choices(body, ns, danger, anchors)[k]->Some_0;
            &&& crate::lines::blank(content)
            &&& !crate::danger::overlaps(danger, l.content_start as int, l.full_end as int)
            &&& (crate::fix::spec_enclosing(ns, anchors[k], l.content_start as int) matches Some(
                c,
            ) ==> !ns[c.node as int].has_error)
            &&& crate::fix::ws_range(body, r)
            &&& r.0 < r.1
            &&& body.subrange(r.0, r.1) != content
        }),
{
    let lines = crate::lines::spec_lines(body);
    let l = lines[k];
    crate::lines::lemma_line_of(body, k);
    crate::fix::lemma_next_indent_ws(body, lines, danger, body.len() as int, k + 1);
    let container = crate::fix::spec_enclosing(ns, anchors[k], l.content_start as int);
    if let Some(c) = container {
        crate::fix::lemma_enclosing_in(ns, anchors[k], l.content_start as int);
        crate::fix::lemma_next_indent_ws(body, lines, danger, c.content_end as int, k + 1);
        crate::syntax::lemma_node_ok(ns, c.node as int);
        crate::fix::lemma_member_scan_ws(
            ns,
            body,
            c.node as int,
            crate::fix::first_child_index(ns[c.node as int]),
            c.content_start as int,
            c.content_end as int,
        );
    }
}

/// The pieces that a repair puts together: for each line, its chosen
/// indentation or its old content, followed by its own line ending.
pub open spec fn repair_pieces(
    body: Seq<u8>,
    lines: Seq<crate::lines::LineInfo>,
    ch: Seq<Option<(int, int)>>,
) -> Seq<(Seq<u8>, Seq<u8>)> {
    Seq::new(
        lines.len(),
        |k: int|
            (
                match ch[k] {
                    Some(r) => body.subrange(r.0, r.1),
                    None => crate::lines::content_of(body, lines[k]),
                },
                crate::lines::newline_of(body, lines[k]),
            ),
    )
}

proof fn lemma_render_is_join(
    body: Seq<u8>,
    ch: Seq<Option<(int, int)>>,
    m: int,
)
    requires
        body.len() <= usize::MAX,
        ch.len() == crate::lines::spec_lines(body).len(),
        0 <= m <= ch.len(),
    ensures
        crate::fix::render(body, crate::lines::spec_lines(body), ch, m) == crate::lines::join_pieces(
            repair_pieces(body, crate::lines::spec_lines(body), ch),
            m,
        ),
    decreases m,
{
    let lines = crate::lines::spec_lines(body);
    let p = repair_pieces(body, lines, ch);
    if m > 0 {
        lemma_render_is_join(body, ch, m - 1);
        crate::lines::lemma_line_of(body, m - 1);
        let l = lines[m - 1];
        let prev = crate::fix::render(body, lines, ch, m - 1);
        match ch[m - 1] {
            Some(r) => {
                assert(prev + (p[m - 1].0 + p[m - 1].1) == prev + p[m - 1].0 + p[m - 1].1);
            },
            None => {
                assert(crate::lines::text_of(body, l) == crate::lines::content_of(body, l)
                    + crate::lines::newline_of(body, l));
                assert(prev + (p[m - 1].0 + p[m - 1].1) == prev + p[m - 1].0 + p[m - 1].1);
            },
        }
    }
}

proof fn lemma_repair_pieces_ok(
    body: Seq<u8>,
    ns: Seq<SyntaxNode>,
    danger: Seq<Interval>,
    anchors: Seq<Option<usize>>,
)
    requires
        body.len() <= usize::MAX,
        crate::syntax::nodes_ok(ns),
        crate::syntax::nodes_fit(ns, body.len() as int),
    ensures
        crate::lines::pieces_ok(
            repair_pieces(
                body,
                crate::lines::spec_lines(body),
                crate::fix::choices(body, ns, danger, anchors),
            ),
        ),
{
    let lines = crate::lines::spec_lines(body);
    let ch = crate::fix::choices(body, ns, danger, anchors);
    let p = repair_pieces(body, lines, ch);
    assert forall|k: int| 0 <= k < p.len() implies crate::lines::piece_ok(#[trigger] p[k].0, p[k].1)
        && (p[k].1.len() == 0 ==> k == p.len() - 1) by {
        crate::lines::lemma_line_of(body, k);
        let l = lines[k];
        let start = l.content_start as int;
        crate::lines::lemma_line_at_shape(body, start);
        crate::lines::lemma_next_newline_bounds(body, start);
        let j = crate::lines::next_newline(body, start);
        let c = crate::lines::content_of(body, l);
        let nl = crate::lines::newline_of(body, l);
        if j < body.len() {
            if l.content_end == j - 1 {
                assert(nl == seq![crate::lines::CR, crate::lines::LF]);
            } else {
                assert(nl == seq![crate::lines::LF]);
                if c.len() > 0 {
                    assert(c[c.len() - 1] == body[j - 1]);
                }
            }
        } else {
            assert(nl.len() == 0);
            if k < p.len() - 1 {
                crate::lines::lemma_line_of(body, k + 1);
            }
        }
        assert forall|i: int| 0 <= i < c.len() implies c[i] != crate::lines::LF by {
            assert(c[i] == body[start + i]);
        }
        if let Some(r) = ch[k] {
            lemma_only_blank_lines_change(body, ns, danger, anchors, k);
            let w = body.subrange(r.0, r.1);
            assert forall|i: int| 0 <= i < w.len() implies w[i] != crate::lines::LF && w[i]
                != crate::lines::CR by {
                assert(w[i] == body[r.0 + i]);
                assert(crate::lines::is_ws_byte(body[r.0 + i]));
            }
        }
    }
}

/// A repair keeps the lines of the buffer: the result has as many lines, each
/// with its old line ending (`\n`, `\r\n` or none); a line keeps its content
/// unless it is chosen, and then its content is the chosen indentation.
pub proof fn lemma_repair_keeps_lines(
    body: Seq<u8>,
    ns: Seq<SyntaxNode>,
    danger: Seq<Interval>,
    anchors: Seq<Option<usize>>,
    out: Seq<u8>,
)
    requires
        body.len() <= usize::MAX,
        out.len() <= usize::MAX,
        crate::syntax::nodes_ok(ns),
        crate::syntax::nodes_fit(ns, body.len() as int),
        crate::fix::repaired(body, ns, danger, anchors) == Some(out),
    ensures
        ({
            let lines = crate::lines::spec_lines(body);
            let new_lines = crate::lines::spec_lines(out);
            let ch = crate::fix::choices(body, ns, danger, anchors);
            &&& new_lines.len() == lines.len()
            &&& forall|k: int|
                0 <= k < lines.len() ==> crate::lines::newline_of(out, #[trigger] new_lines[k])
                    == crate::lines::newline_of(body, lines[k])
            &&& forall|k: int|
                0 <= k < lines.len() ==> crate::lines::content_of(out, #[trigger] new_lines[k])
                    == match ch[k] {
                    Some(r) => body.subrange(r.0, r.1),
                    None => crate::lines::content_of(body, lines[k]),
                }
        }),
{
    let lines = crate::lines::spec_lines(body);
    let ch = crate::fix::choices(body, ns, danger, anchors);
    let p = repair_pieces(body, lines, ch);
    lemma_render_is_join(body, ch, lines.len() as int);
    lemma_repair_pieces_ok(body, ns, danger, anchors);
    crate::lines::lemma_lines_of_pieces(p);
}

/// A repair that changes something gives a buffer that differs from the old
/// one, so the file is only rewritten when its bytes change.
pub proof fn lemma_repair_differs(
    body: Seq<u8>,
    ns: Seq<SyntaxNode>,
    danger: Seq<Interval>,
    anchors: Seq<Option<usize>>,
    out: Seq<u8>,
)
    requires
        body.len() <= usize::MAX,
        out.len() <= usize::MAX,
        crate::syntax::nodes_ok(ns),
        crate::syntax::nodes_fit(ns, body.len() as int),
        crate::fix::repaired(body, ns, danger, anchors) == Some(out),
    ensures
        out != body,
{
    let lines = crate::lines::spec_lines(body);
    let ch = crate::fix::choices(body, ns, danger, anchors);
    let k = choose|k: int| 0 <= k < lines.len() && #[trigger] ch[k] is Some;
    lemma_repair_keeps_lines(body, ns, danger, anchors, out);
    lemma_only_blank_lines_change(body, ns, danger, anchors, k);
    if out == body {
        assert(crate::lines::content_of(out, crate::lines::spec_lines(out)[k])
            == crate::lines::content_of(body, lines[k]));
    }
}

/// For the tree the parser gives: a repaired text has the lines of the old
/// one with their old line endings, and each line keeps its content or was
/// blank and outside every danger zone and now holds a different, non-empty
/// run of spaces and tabs.
pub proof fn lemma_fixed_text_keeps_lines(body: Seq<u8>, out: Seq<u8>)
    requires
        body.len() <= usize::MAX,
        out.len() <= usize::MAX,
        crate::hook::fixes_to(body, Some(out)),
    ensures
        out != body,
        crate::lines::spec_lines(out).len() == crate::lines::spec_lines(body).len(),
        forall|k: int|
            0 <= k < crate::lines::spec_lines(body).len() ==> {
                let old_line = crate::lines::spec_lines(body)[k];
                let new_line = #[trigger] crate::lines::spec_lines(out)[k];
                let old_content = crate::lines::content_of(body, old_line);
                let new_content = crate::lines::content_of(out, new_line);
                &&& crate::lines::newline_of(out, new_line) == crate::lines::newline_of(
                    body,
                    old_line,
                )
                &&& (new_content == old_content || {
                    &&& crate::lines::blank(old_content)
                    &&& crate::lines::blank(new_content)
                    &&& new_content.len() > 0
                })
            },
{
    let (ns, d, a) = choose|
        ns: Seq<SyntaxNode>,
        d: Seq<Interval>,
        a: Seq<Option<usize>>,
    |
        {
            &&& crate::csharp::table_from(crate::csharp::csharp_nodes(body), ns)
            &&& crate::syntax::nodes_ok(ns)
            &&& crate::syntax::nodes_fit(ns, body.len() as int)
            &&& crate::danger::zones_of(ns, d)
            &&& crate::danger::sorted_intervals(d)
            &&& crate::fix::parser_anchors(body, ns, d, body, a)
            &&& crate::fix::repaired(body, ns, d, a) == Some(out)
        };
    lemma_repair_keeps_lines(body, ns, d, a, out);
    lemma_repair_differs(body, ns, d, a, out);
    let lines = crate::lines::spec_lines(body);
    let ch = crate::fix::choices(body, ns, d, a);
    assert forall|k: int| 0 <= k < lines.len() implies {
        let old_line = lines[k];
        let new_line = #[trigger] crate::lines::spec_lines(out)[k];
        let old_content = crate::lines::content_of(body, old_line);
        let new_content = crate::lines::content_of(out, new_line);
        &&& crate::lines::newline_of(out, new_line) == crate::lines::newline_of(body, old_line)
        &&& (new_content == old_content || {
            &&& crate::lines::blank(old_content)
            &&& crate::lines::blank(new_content)
            &&& new_content.len() > 0
        })
    } by {
        if let Some(r) = ch[k] {
            lemma_only_blank_lines_change(body, ns, d, a, k);
            let w = body.subrange(r.0, r.1);
            assert forall|i: int| 0 <= i < w.len() implies #[trigger] crate::lines::is_ws_byte(
                w[i],
            ) by {
                assert(w[i] == body[r.0 + i]);
            }
        }
    }
}

/// The nearest node at or above `node` (following the parent links) that is
/// a container at `pos`: the structural scope of that position.
pub open spec fn structural_scope(ns: Seq<SyntaxNode>, node: int, pos: int) -> Option<int>
    decreases node,
{
    if node < 0 || node >= ns.len() {
        None
    } else if crate::fix::spec_as_container(ns, node, pos) is Some {
        Some(node)
    } else {
        match ns[node].parent {
            Some(p) => if p < node {
                structural_scope(ns, p as int, pos)
            } else {
                None
            },
            None => None,
        }
    }
}

/// Climbing from `node` with a local scope that holds an error only when
/// `node` does finds a scope, and it holds an error exactly when the
/// structural scope does.
proof fn lemma_climb_reports_error(
    ns: Seq<SyntaxNode>,
    node: int,
    pos: int,
    local: Option<crate::fix::Container>,
    s: int,
)
    requires
        crate::syntax::nodes_ok(ns),
        ns.len() <= usize::MAX,
        0 <= node < ns.len(),
        local matches Some(l) ==> 0 <= l.node < ns.len() && (ns[l.node as int].has_error
            ==> ns[node].has_error),
        structural_scope(ns, node, pos) == Some(s),
    ensures
        crate::fix::climb(ns, node, pos, local) matches Some(c) && 0 <= c.node < ns.len() && (
        ns[c.node as int].has_error <==> ns[s].has_error),
    decreases node,
{
    assert(crate::syntax::node_ok(ns, node));
    if crate::fix::spec_as_container(ns, node, pos) is None {
        let n = ns[node];
        let p = n.parent.unwrap();
        let local2 = if local is None && n.start < pos && pos < n.end {
            Some(
                crate::fix::Container {
                    node: node as usize,
                    content_start: n.start,
                    content_end: n.end,
                    prefer_next: true,
                },
            )
        } else {
            local
        };
        lemma_climb_reports_error(ns, p as int, pos, local2, s);
    }
}

/// A parse error in the structural scope of a position is always reported:
/// the scope found from an anchor holds an error exactly when the nearest
/// container at or above the anchor does, even where a smaller local scope
/// is returned in its place.
pub proof fn lemma_scope_error_reported(ns: Seq<SyntaxNode>, anchor: usize, pos: int, s: int)
    requires
        crate::syntax::nodes_ok(ns),
        ns.len() <= usize::MAX,
        anchor < ns.len(),
        structural_scope(ns, anchor as int, pos) == Some(s),
    ensures
        crate::fix::spec_enclosing(ns, Some(anchor), pos) matches Some(c) && (
        ns[c.node as int].has_error <==> ns[s].has_error),
{
    lemma_climb_reports_error(ns, anchor as int, pos, None, s);
}

/// The repair is determined by the text: there is one result that the parse
/// of a body, its danger zones and the parser's anchors give.
pub proof fn lemma_fixes_to_unique(body: Seq<u8>, r1: Option<Seq<u8>>, r2: Option<Seq<u8>>)
    requires
        crate::hook::fixes_to(body, r1),
        crate::hook::fixes_to(body, r2),
    ensures
        r1 == r2,
{
    let (ns1, d1, a1) = choose|ns: Seq<SyntaxNode>, d: Seq<Interval>, a: Seq<Option<usize>>|
        {
            &&& crate::csharp::table_from(crate::csharp::csharp_nodes(body), ns)
            &&& crate::syntax::nodes_ok(ns)
            &&& crate::syntax::nodes_fit(ns, body.len() as int)
            &&& crate::danger::zones_of(ns, d)
            &&& crate::danger::sorted_intervals(d)
            &&& crate::fix::parser_anchors(body, ns, d, body, a)
            &&& crate::fix::repaired(body, ns, d, a) == r1
        };
    let (ns2, d2, a2) = choose|ns: Seq<SyntaxNode>, d: Seq<Interval>, a: Seq<Option<usize>>|
        {
            &&& crate::csharp::table_from(crate::csharp::csharp_nodes(body), ns)
            &&& crate::syntax::nodes_ok(ns)
            &&& crate::syntax::nodes_fit(ns, body.len() as int)
            &&& crate::danger::zones_of(ns, d)
            &&& crate::danger::sorted_intervals(d)
            &&& crate::fix::parser_anchors(body, ns, d, body, a)
            &&& crate::fix::repaired(body, ns, d, a) == r2
        };
    crate::csharp::lemma_table_unique(crate::csharp::csharp_nodes(body), ns1, ns2);
    crate::danger::lemma_zones_unique(ns1, d1, d2);
    crate::fix::lemma_parser_anchors_unique(body, ns1, d1, body, a1, a2);
}

/// The indentation that the scope of line `k` gives: from the container that
/// the anchor leads to, its first member's indentation or the next line's
/// (in the order the container prefers), or the next line's when there is no
/// container.
pub open spec fn scope_indent(
    body: Seq<u8>,
    ns: Seq<SyntaxNode>,
    danger: Seq<Interval>,
    anchor: Option<usize>,
    lines: Seq<crate::lines::LineInfo>,
    k: int,
) -> Option<(int, int)> {
    let l = lines[k];
    match crate::fix::spec_enclosing(ns, anchor, l.content_start as int) {
        Some(c) => {
            let member = crate::fix::spec_first_member_indent(ns, body, c);
            let next = crate::fix::next_indent_from(body, lines, danger, c.content_end as int, k + 1);
            if c.prefer_next {
                if next is Some {
                    next
                } else {
                    member
                }
            } else {
                if member is Some {
                    member
                } else {
                    next
                }
            }
        },
        None => crate::fix::next_indent_from(body, lines, danger, body.len() as int, k + 1),
    }
}

/// Every line that holds spaces and tabs only, of any length, is repaired
/// when it lies outside the danger zones, its scope has no error, and the
/// indentation of its scope is not empty and differs from what the line
/// holds: it takes that indentation.
pub proof fn lemma_whitespace_line_is_repaired(
    body: Seq<u8>,
    ns: Seq<SyntaxNode>,
    danger: Seq<Interval>,
    anchors: Seq<Option<usize>>,
    k: int,
    r: (int, int),
)
    requires
        0 <= k < crate::lines::spec_lines(body).len(),
        anchors.len() == crate::lines::spec_lines(body).len(),
        ({
            let l = crate::lines::spec_lines(body)[k];
            let content = body.subrange(l.content_start as int, l.content_end as int);
            &&& forall|i: int| 0 <= i < content.len() ==> content[i] == 32u8 || content[i] == 9u8
            &&& !crate::danger::overlaps(danger, l.content_start as int, l.full_end as int)
            &&& !(crate::fix::spec_enclosing(ns, anchors[k], l.content_start as int) matches Some(c)
                && ns[c.node as int].has_error)
            &&& scope_indent(body, ns, danger, anchors[k], crate::lines::spec_lines(body), k) == Some(r)
            &&& r.0 < r.1
            &&& body.subrange(r.0, r.1) != content
        }),
    ensures
        crate::fix::choices(body, ns, danger, anchors)[k] == Some(r),
{
    let lines = crate::lines::spec_lines(body);
    let l = lines[k];
    let content = crate::lines::content_of(body, l);
    assert forall|i: int| 0 <= i < content.len() implies #[trigger] crate::lines::is_ws_byte(
        content[i],
    ) by {}
}

/// A compilation unit or a switch section is a container of every position,
/// with its whole byte range as content.
pub proof fn lemma_whole_node_containers(ns: Seq<SyntaxNode>, node: int, pos: int)
    requires
        ns.len() <= usize::MAX,
        0 <= node < ns.len(),
        ns[node].kind == crate::syntax::NodeKind::CompilationUnit || ns[node].kind
            == crate::syntax::NodeKind::SwitchSection,
    ensures
        crate::fix::spec_as_container(ns, node, pos) == Some(
            crate::fix::Container {
                node: node as usize,
                content_start: ns[node].start,
                content_end: ns[node].end,
                prefer_next: false,
            },
        ),
{
}

/// A node (other than a compilation unit, a switch section or a type list)
/// whose first `{` and last `}` among its own children enclose `pos` is a
/// container of `pos` with the inside of the braces as its content.
pub proof fn lemma_braces_make_a_container(
    ns: Seq<SyntaxNode>,
    node: int,
    pos: int,
    o: int,
    c: int,
)
    requires
        ns.len() <= usize::MAX,
        0 <= node < ns.len(),
        ns[node].kind != crate::syntax::NodeKind::CompilationUnit,
        ns[node].kind != crate::syntax::NodeKind::SwitchSection,
        ns[node].kind != crate::syntax::NodeKind::TypeArgumentList,
        ns[node].kind != crate::syntax::NodeKind::TypeParameterList,
        crate::fix::first_token(
            ns,
            crate::fix::first_child_index(ns[node]),
            crate::syntax::NodeKind::OpenBrace,
        ) == Some(o),
        crate::fix::last_token(
            ns,
            crate::fix::first_child_index(ns[node]),
            crate::syntax::NodeKind::CloseBrace,
            None,
        ) == Some(c),
        ns[o].end <= pos <= ns[c].start,
    ensures
        crate::fix::spec_as_container(ns, node, pos) == Some(
            crate::fix::Container {
                node: node as usize,
                content_start: ns[o].end,
                content_end: ns[c].start,
                prefer_next: false,
            },
        ),
{
}

/// A type argument or parameter list whose first `<` and last `>` among its
/// own children enclose `pos` is a container of `pos` with the inside of the
/// angle brackets as its content.
pub proof fn lemma_angles_make_a_container(
    ns: Seq<SyntaxNode>,
    node: int,
    pos: int,
    o: int,
    c: int,
)
    requires
        ns.len() <= usize::MAX,
        0 <= node < ns.len(),
        ns[node].kind == crate::syntax::NodeKind::TypeArgumentList || ns[node].kind
            == crate::syntax::NodeKind::TypeParameterList,
        crate::fix::first_token(
            ns,
            crate::fix::first_child_index(ns[node]),
            crate::syntax::NodeKind::OpenAngle,
        ) == Some(o),
        crate::fix::last_token(
            ns,
            crate::fix::first_child_index(ns[node]),
            crate::syntax::NodeKind::CloseAngle,
            None,
        ) == Some(c),
        ns[o].end <= pos <= ns[c].start,
    ensures
        crate::fix::spec_as_container(ns, node, pos) == Some(
            crate::fix::Container {
                node: node as usize,
                content_start: ns[o].end,
                content_end: ns[c].start,
                prefer_next: false,
            },
        ),
{
}

/// A node whose first `[` and last `]` among its own children enclose `pos`
/// is a container of `pos` with the inside of the brackets as its content,
/// unless its braces or parentheses come first (or it is a compilation unit,
/// a switch section or a type list, which have their own bounds).
pub proof fn lemma_brackets_make_a_container(
    ns: Seq<SyntaxNode>,
    node: int,
    pos: int,
    o: int,
    c: int,
)
    requires
        ns.len() <= usize::MAX,
        0 <= node < ns.len(),
        ns[node].kind != crate::syntax::NodeKind::CompilationUnit,
        ns[node].kind != crate::syntax::NodeKind::SwitchSection,
        ns[node].kind != crate::syntax::NodeKind::TypeArgumentList,
        ns[node].kind != crate::syntax::NodeKind::TypeParameterList,
        crate::fix::spec_delimiter_bounds(
            ns,
            node,
            pos,
            crate::syntax::NodeKind::OpenBrace,
            crate::syntax::NodeKind::CloseBrace,
        ) is None,
        crate::fix::spec_delimiter_bounds(
            ns,
            node,
            pos,
            crate::syntax::NodeKind::OpenParen,
            crate::syntax::NodeKind::CloseParen,
        ) is None,
        crate::fix::first_token(
            ns,
            crate::fix::first_child_index(ns[node]),
            crate::syntax::NodeKind::OpenBracket,
        ) == Some(o),
        crate::fix::last_token(
            ns,
            crate::fix::first_child_index(ns[node]),
            crate::syntax::NodeKind::CloseBracket,
            None,
        ) == Some(c),
        ns[o].end <= pos <= ns[c].start,
    ensures
        crate::fix::spec_as_container(ns, node, pos) == Some(
            crate::fix::Container {
                node: node as usize,
                content_start: ns[o].end,
                content_end: ns[c].start,
                prefer_next: false,
            },
        ),
{
}

/// A node whose first `(` and last `)` among its own children enclose `pos`
/// is a container of `pos` with the inside of the parentheses as its content,
/// unless its braces come first (or it is a compilation unit, a switch
/// section or a type list).
pub proof fn lemma_parens_make_a_container(
    ns: Seq<SyntaxNode>,
    node: int,
    pos: int,
    o: int,
    c: int,
)
    requires
        ns.len() <= usize::MAX,
        0 <= node < ns.len(),
        ns[node].kind != crate::syntax::NodeKind::CompilationUnit,
        ns[node].kind != crate::syntax::NodeKind::SwitchSection,
        ns[node].kind != crate::syntax::NodeKind::TypeArgumentList,
        ns[node].kind != crate::syntax::NodeKind::TypeParameterList,
        crate::fix::spec_delimiter_bounds(
            ns,
            node,
            pos,
            crate::syntax::NodeKind::OpenBrace,
            crate::syntax::NodeKind::CloseBrace,
        ) is None,
        crate::fix::first_token(
            ns,
            crate::fix::first_child_index(ns[node]),
            crate::syntax::NodeKind::OpenParen,
        ) == Some(o),
        crate::fix::last_token(
            ns,
            crate::fix::first_child_index(ns[node]),
            crate::syntax::NodeKind::CloseParen,
            None,
        ) == Some(c),
        ns[o].end <= pos <= ns[c].start,
    ensures
        crate::fix::spec_as_container(ns, node, pos) == Some(
            crate::fix::Container {
                node: node as usize,
                content_start: ns[o].end,
                content_end: ns[c].start,
                prefer_next: false,
            },
        ),
{
}

/// Every node of a table read from tree-sitter's nodes whose grammar name is
/// a delimiter token is read as that delimiter's kind.
pub proof fn lemma_delimiter_tokens_read(
    items: Seq<crate::csharp::NodeFacts>,
    ns: Seq<SyntaxNode>,
    i: int,
)
    requires
        crate::csharp::table_from(items, ns),
        0 <= i < ns.len(),
    ensures
        items[i].0 == "{"@ ==> ns[i].kind == crate::syntax::NodeKind::OpenBrace,
        items[i].0 == "}"@ ==> ns[i].kind == crate::syntax::NodeKind::CloseBrace,
        items[i].0 == "("@ ==> ns[i].kind == crate::syntax::NodeKind::OpenParen,
        items[i].0 == ")"@ ==> ns[i].kind == crate::syntax::NodeKind::CloseParen,
        items[i].0 == "["@ ==> ns[i].kind == crate::syntax::NodeKind::OpenBracket,
        items[i].0 == "]"@ ==> ns[i].kind == crate::syntax::NodeKind::CloseBracket,
        items[i].0 == "<"@ ==> ns[i].kind == crate::syntax::NodeKind::OpenAngle,
        items[i].0 == ">"@ ==> ns[i].kind == crate::syntax::NodeKind::CloseAngle,
{
    assert(crate::csharp::node_from(items, i, ns[i]));
    crate::syntax::lemma_kind_names(items[i].0);
}

} // verus!
