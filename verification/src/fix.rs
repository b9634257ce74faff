//! Blank-line indentation repair.
//!
//! A blank line (spaces and tabs only) outside the danger zones takes the
//! indentation of its scope: the first member of its enclosing container, or
//! the next line with code, in an order that depends on the container.
use vstd::prelude::*;

use crate::danger::{byte_in_any, range_overlaps_any, Interval};
use crate::lines::{
    is_blank, leading_ws, leading_ws_of_line, split_lines, LineInfo, HASH,
};
use crate::csharp::{anchor_at, ParsedTree};
use crate::syntax::{NodeKind, SyntaxNode, SyntaxTree};

verus! {

/// What the repair of a buffer comes to.
#[derive(Debug)]
pub enum FixOutcome {
    NoChange,
    Changed(Vec<u8>),
}

/// A scope that can give a blank line its indentation: a syntax node and the
/// byte range of its content (inside its delimiters, if it has any).
/// `prefer_next` scopes look at the next line with code first.
#[derive(Clone, Copy, Debug)]
pub struct Container {
    pub node: usize,
    pub content_start: usize,
    pub content_end: usize,
    pub prefer_next: bool,
}

// ---------------------------------------------------------------------------
// The rules, as spec functions over the node table.
// ---------------------------------------------------------------------------
/// The index of a node's first child, or -1.
pub open spec fn first_child_index(n: SyntaxNode) -> int {
    match n.first_child {
        Some(c) => c as int,
        None => -1,
    }
}

/// The sibling after node `c`, when the link points forward within the
/// table, or -1.
pub open spec fn next_index(ns: Seq<SyntaxNode>, c: int) -> int {
    match ns[c].next_sibling {
        Some(s) => if c < s < ns.len() {
            s as int
        } else {
            -1
        },
        None => -1,
    }
}

/// An anonymous token of kind `k`.
pub open spec fn is_token(n: SyntaxNode, k: NodeKind) -> bool {
    !n.named && n.kind == k
}

/// The first token of kind `k` among the siblings from `c` on.
pub open spec fn first_token(ns: Seq<SyntaxNode>, c: int, k: NodeKind) -> Option<int>
    decreases ns.len() - c,
{
    if c < 0 || c >= ns.len() {
        None
    } else if is_token(ns[c], k) {
        Some(c)
    } else if next_index(ns, c) > c {
        first_token(ns, next_index(ns, c), k)
    } else {
        None
    }
}

/// The last token of kind `k` among the siblings from `c` on, or `found`
/// when there is none.
pub open spec fn last_token(ns: Seq<SyntaxNode>, c: int, k: NodeKind, found: Option<int>) -> Option<
    int,
>
    decreases ns.len() - c,
{
    if c < 0 || c >= ns.len() {
        found
    } else {
        let found2 = if is_token(ns[c], k) {
            Some(c)
        } else {
            found
        };
        if next_index(ns, c) > c {
            last_token(ns, next_index(ns, c), k, found2)
        } else {
            found2
        }
    }
}

/// The content of `node` between its first `open` token and its last `close`
/// token, when both exist and the content holds `pos`.
pub open spec fn spec_delimiter_bounds(
    ns: Seq<SyntaxNode>,
    node: int,
    pos: int,
    open: NodeKind,
    close: NodeKind,
) -> Option<(int, int)> {
    let fc = first_child_index(ns[node]);
    match (first_token(ns, fc, open), last_token(ns, fc, close, None)) {
        (Some(o), Some(c)) => {
            let start = ns[o].end as int;
            let end = ns[c].start as int;
            if start <= pos <= end {
                Some((start, end))
            } else {
                None
            }
        },
        _ => None,
    }
}

/// The content range of `node` when it is a container of `pos`: the whole
/// compilation unit or switch section, the inside of `<...>` of a type
/// argument or parameter list, or otherwise the inside of the first of
/// `{...}`, `(...)`, `[...]` that holds `pos`.
pub open spec fn spec_bounds(ns: Seq<SyntaxNode>, node: int, pos: int) -> Option<(int, int)> {
    let n = ns[node];
    if n.kind == NodeKind::CompilationUnit || n.kind == NodeKind::SwitchSection {
        Some((n.start as int, n.end as int))
    } else if n.kind == NodeKind::TypeArgumentList || n.kind == NodeKind::TypeParameterList {
        spec_delimiter_bounds(ns, node, pos, NodeKind::OpenAngle, NodeKind::CloseAngle)
    } else {
        match spec_delimiter_bounds(ns, node, pos, NodeKind::OpenBrace, NodeKind::CloseBrace) {
            Some(b) => Some(b),
            None => match spec_delimiter_bounds(
                ns,
                node,
                pos,
                NodeKind::OpenParen,
                NodeKind::CloseParen,
            ) {
                Some(b) => Some(b),
                None => spec_delimiter_bounds(
                    ns,
                    node,
                    pos,
                    NodeKind::OpenBracket,
                    NodeKind::CloseBracket,
                ),
            },
        }
    }
}

/// `node` as a container of `pos`, if it is one.
pub open spec fn spec_as_container(ns: Seq<SyntaxNode>, node: int, pos: int) -> Option<Container> {
    match spec_bounds(ns, node, pos) {
        Some(b) => Some(
            Container {
                node: node as usize,
                content_start: b.0 as usize,
                content_end: b.1 as usize,
                prefer_next: false,
            },
        ),
        None => None,
    }
}

/// The container found by climbing from `node` towards the root. The first
/// node that strictly holds `pos` and is no container is kept as a local
/// scope; a container with an error is returned in any case, else the local
/// scope wins over it. Reaching the root without a container gives nothing.
pub open spec fn climb(ns: Seq<SyntaxNode>, node: int, pos: int, local: Option<Container>) -> Option<
    Container,
>
    decreases node,
{
    if node < 0 || node >= ns.len() {
        None
    } else {
        match spec_as_container(ns, node, pos) {
            Some(c) => if ns[node].has_error {
                Some(c)
            } else {
                match local {
                    Some(l) => Some(l),
                    None => Some(c),
                }
            },
            None => {
                let n = ns[node];
                let local2 = if local is None && n.start < pos && pos < n.end {
                    Some(
                        Container {
                            node: node as usize,
                            content_start: n.start,
                            content_end: n.end,
                            prefer_next: true,
                        },
                    )
                } else {
                    local
                };
                match n.parent {
                    Some(p) => if p < node {
                        climb(ns, p as int, pos, local2)
                    } else {
                        None
                    },
                    None => None,
                }
            },
        }
    }
}

/// The container of `pos`, climbing from `anchor`, the node that the parser
/// finds for `pos`.
pub open spec fn spec_enclosing(ns: Seq<SyntaxNode>, anchor: Option<usize>, pos: int) -> Option<
    Container,
> {
    match anchor {
        Some(a) => climb(ns, a as int, pos, None),
        None => None,
    }
}

/// The `n`-th named node (counted from 0) among the siblings from `c` on.
pub open spec fn nth_named(ns: Seq<SyntaxNode>, c: int, n: nat) -> Option<int>
    decreases ns.len() - c,
{
    if c < 0 || c >= ns.len() {
        None
    } else if ns[c].named && n == 0 {
        Some(c)
    } else {
        let n2: nat = if ns[c].named {
            (n - 1) as nat
        } else {
            n
        };
        if next_index(ns, c) > c {
            nth_named(ns, next_index(ns, c), n2)
        } else {
            None
        }
    }
}

/// The statement that a chain of labels starting at `rep` introduces: the
/// second named child of each labeled statement, while there is one.
pub open spec fn chase_label(ns: Seq<SyntaxNode>, rep: int) -> int
    decreases ns.len() - rep,
{
    if 0 <= rep < ns.len() && ns[rep].kind == NodeKind::LabeledStatement {
        match nth_named(ns, first_child_index(ns[rep]), 1) {
            Some(b) => if rep < b < ns.len() {
                chase_label(ns, b)
            } else {
                rep
            },
            None => rep,
        }
    } else {
        rep
    }
}

/// The leading whitespace of the line of `body` that holds `pos`, as offsets.
pub open spec fn ws_of_line(body: Seq<u8>, pos: int) -> (int, int) {
    let ls = crate::lines::line_start_before(body, pos);
    (ls, crate::lines::ws_end(body, ls))
}

/// The indentation that the first member of `node` gives, scanning the
/// siblings from `i` on: named children that start in `cs..ce`, skipping
/// comments, looking inside preprocessor blocks, and (but in a compilation
/// unit) skipping members on the node's own first row. A member that is a
/// chain of labels stands for the statement it labels, unless the node is
/// itself a labeled statement.
pub open spec fn member_scan(
    ns: Seq<SyntaxNode>,
    body: Seq<u8>,
    node: int,
    i: int,
    cs: int,
    ce: int,
) -> Option<(int, int)>
    decreases ns.len() - node, ns.len() - i,
{
    if node < 0 || node >= ns.len() || i <= node || i >= ns.len() {
        None
    } else {
        let child = ns[i];
        let rest = if next_index(ns, i) > i {
            member_scan(ns, body, node, next_index(ns, i), cs, ce)
        } else {
            None
        };
        if !child.named {
            rest
        } else if child.start < cs {
            rest
        } else if child.start >= ce {
            None
        } else if child.kind == NodeKind::Comment {
            rest
        } else if child.kind == NodeKind::Preprocessor {
            match member_scan(ns, body, i, first_child_index(child), cs, ce) {
                Some(r) => Some(r),
                None => rest,
            }
        } else if ns[node].kind != NodeKind::CompilationUnit && child.start_row
            == ns[node].start_row {
            rest
        } else {
            let rep = if ns[node].kind != NodeKind::LabeledStatement {
                chase_label(ns, i)
            } else {
                i
            };
            Some(ws_of_line(body, ns[rep].start as int))
        }
    }
}

/// The indentation of the first member of a container.
pub open spec fn spec_first_member_indent(ns: Seq<SyntaxNode>, body: Seq<u8>, c: Container) -> Option<
    (int, int),
> {
    member_scan(
        ns,
        body,
        c.node as int,
        first_child_index(ns[c.node as int]),
        c.content_start as int,
        c.content_end as int,
    )
}

/// The leading whitespace of the first line after line `j - 1` that holds
/// code, is no preprocessor directive and does not start in a danger zone;
/// nothing when the code of such a line starts after `bound` first.
pub open spec fn next_indent_from(
    body: Seq<u8>,
    lines: Seq<LineInfo>,
    danger: Seq<Interval>,
    bound: int,
    j: int,
) -> Option<(int, int)>
    decreases lines.len() - j,
{
    if j < 0 || j >= lines.len() {
        None
    } else {
        let l = lines[j];
        let content = crate::lines::content_of(body, l);
        if crate::lines::blank(content) {
            next_indent_from(body, lines, danger, bound, j + 1)
        } else {
            let w = crate::lines::ws_end(content, 0);
            let code = l.content_start + w;
            if code > bound {
                None
            } else if (w < content.len() && content[w] == HASH) || crate::danger::covers(
                danger,
                code,
            ) {
                next_indent_from(body, lines, danger, bound, j + 1)
            } else {
                Some((l.content_start as int, code))
            }
        }
    }
}

/// Where the code of line `l` starts: after its leading spaces and tabs.
pub open spec fn code_start(body: Seq<u8>, l: LineInfo) -> int {
    l.content_start + crate::lines::ws_end(crate::lines::content_of(body, l), 0)
}

/// Line `l` holds code that starts with `#` (a preprocessor directive) or in
/// a danger zone.
pub open spec fn code_ignored(body: Seq<u8>, danger: Seq<Interval>, l: LineInfo) -> bool {
    let content = crate::lines::content_of(body, l);
    let w = crate::lines::ws_end(content, 0);
    (w < content.len() && content[w] == HASH) || crate::danger::covers(danger, code_start(body, l))
}

/// The search for the next indentation passes over line `l`: it is blank, or
/// its code starts by `bound` and is ignored.
pub open spec fn line_passed(body: Seq<u8>, danger: Seq<Interval>, bound: int, l: LineInfo) -> bool {
    crate::lines::blank(crate::lines::content_of(body, l)) || (code_start(body, l) <= bound
        && code_ignored(body, danger, l))
}

/// Line `l` gives the next indentation: its code starts by `bound` and is not
/// ignored.
pub open spec fn line_gives_indent(body: Seq<u8>, danger: Seq<Interval>, bound: int, l: LineInfo) -> bool {
    &&& !crate::lines::blank(crate::lines::content_of(body, l))
    &&& code_start(body, l) <= bound
    &&& !code_ignored(body, danger, l)
}

/// `next_indent_from` read directly: the leading whitespace of the first line
/// from `j` on that gives an indentation, where every line before it is passed
/// over; nothing when there is no such line.
pub proof fn lemma_next_indent_first_line(
    body: Seq<u8>,
    lines: Seq<LineInfo>,
    danger: Seq<Interval>,
    bound: int,
    j: int,
)
    requires
        0 <= j,
    ensures
        match next_indent_from(body, lines, danger, bound, j) {
            Some(r) => exists|m: int|
                {
                    &&& j <= m < lines.len()
                    &&& forall|k: int| j <= k < m ==> line_passed(body, danger, bound, #[trigger] lines[k])
                    &&& line_gives_indent(body, danger, bound, lines[m])
                    &&& r == (lines[m].content_start as int, code_start(body, lines[m]))
                },
            None => forall|m: int|
                j <= m < lines.len() && (forall|k: int|
                    j <= k < m ==> line_passed(body, danger, bound, #[trigger] lines[k]))
                    ==> !line_gives_indent(body, danger, bound, #[trigger] lines[m]),
        },
    decreases lines.len() - j,
{
    if j < lines.len() {
        lemma_next_indent_first_line(body, lines, danger, bound, j + 1);
        let l = lines[j];
        if line_passed(body, danger, bound, l) {
            match next_indent_from(body, lines, danger, bound, j) {
                Some(r) => {
                    let m = choose|m: int|
                        {
                            &&& j + 1 <= m < lines.len()
                            &&& forall|k: int|
                                j + 1 <= k < m ==> line_passed(body, danger, bound, #[trigger] lines[k])
                            &&& line_gives_indent(body, danger, bound, lines[m])
                            &&& r == (lines[m].content_start as int, code_start(body, lines[m]))
                        };
                    assert forall|k: int| j <= k < m implies line_passed(
                        body,
                        danger,
                        bound,
                        #[trigger] lines[k],
                    ) by {
                        if k > j {
                            assert(j + 1 <= k < m);
                        }
                    }
                },
                None => {
                    assert forall|m: int|
                        j <= m < lines.len() && (forall|k: int|
                            j <= k < m ==> line_passed(body, danger, bound, #[trigger] lines[k]))
                            implies !line_gives_indent(body, danger, bound, #[trigger] lines[m]) by {
                        if m > j {
                            assert forall|k: int| j + 1 <= k < m implies line_passed(
                                body,
                                danger,
                                bound,
                                #[trigger] lines[k],
                            ) by {
                                assert(j <= k < m);
                            }
                        }
                    }
                },
            }
        } else {
            match next_indent_from(body, lines, danger, bound, j) {
                Some(r) => {
                    assert(line_gives_indent(body, danger, bound, lines[j]));
                },
                None => {
                    assert forall|m: int|
                        j <= m < lines.len() && (forall|k: int|
                            j <= k < m ==> line_passed(body, danger, bound, #[trigger] lines[k]))
                            implies !line_gives_indent(body, danger, bound, #[trigger] lines[m]) by {
                        if m > j {
                            assert(j <= j < m);
                            assert(line_passed(body, danger, bound, lines[j]));
                        }
                    }
                },
            }
        }
    }
}

/// The indentation that the rules choose for line `k`, as offsets into
/// `body`, when the line is to change: a blank line outside the danger zones,
/// whose container (if any) has no error, for which an indentation is found
/// that is not empty and differs from the line's content.
pub open spec fn line_choice(
    body: Seq<u8>,
    ns: Seq<SyntaxNode>,
    danger: Seq<Interval>,
    anchor: Option<usize>,
    lines: Seq<LineInfo>,
    k: int,
) -> Option<(int, int)> {
    let l = lines[k];
    let content = crate::lines::content_of(body, l);
    if !crate::lines::blank(content) {
        None
    } else if crate::danger::overlaps(danger, l.content_start as int, l.full_end as int) {
        None
    } else {
        let container = spec_enclosing(ns, anchor, l.content_start as int);
        if container matches Some(c) && ns[c.node as int].has_error {
            None
        } else {
            let chosen = match container {
                Some(c) => if c.prefer_next {
                    match next_indent_from(body, lines, danger, c.content_end as int, k + 1) {
                        Some(r) => Some(r),
                        None => spec_first_member_indent(ns, body, c),
                    }
                } else {
                    match spec_first_member_indent(ns, body, c) {
                        Some(r) => Some(r),
                        None => next_indent_from(body, lines, danger, c.content_end as int, k + 1),
                    }
                },
                None => next_indent_from(body, lines, danger, body.len() as int, k + 1),
            };
            match chosen {
                Some(r) => if r.0 == r.1 || body.subrange(r.0, r.1) == content {
                    None
                } else {
                    Some(r)
                },
                None => None,
            }
        }
    }
}

/// The choice of every line.
pub open spec fn choices(
    body: Seq<u8>,
    ns: Seq<SyntaxNode>,
    danger: Seq<Interval>,
    anchors: Seq<Option<usize>>,
) -> Seq<Option<(int, int)>> {
    let lines = crate::lines::spec_lines(body);
    Seq::new(lines.len(), |k: int| line_choice(body, ns, danger, anchors[k], lines, k))
}

/// The text that line `l` becomes: its chosen indentation and its own line
/// ending, or its old text.
pub open spec fn piece(body: Seq<u8>, l: LineInfo, choice: Option<(int, int)>) -> Seq<u8> {
    match choice {
        Some(r) => body.subrange(r.0, r.1) + crate::lines::newline_of(body, l),
        None => crate::lines::text_of(body, l),
    }
}

/// The texts of the first `k` lines after the repair.
pub open spec fn render(
    body: Seq<u8>,
    lines: Seq<LineInfo>,
    ch: Seq<Option<(int, int)>>,
    k: int,
) -> Seq<u8>
    decreases k,
{
    if k <= 0 {
        Seq::empty()
    } else {
        render(body, lines, ch, k - 1) + piece(body, lines[k - 1], ch[k - 1])
    }
}

/// The repaired buffer: nothing when no line is chosen, else `body` with
/// each chosen line replaced by its indentation and its own line ending.
pub open spec fn repaired(
    body: Seq<u8>,
    ns: Seq<SyntaxNode>,
    danger: Seq<Interval>,
    anchors: Seq<Option<usize>>,
) -> Option<Seq<u8>> {
    let lines = crate::lines::spec_lines(body);
    let ch = choices(body, ns, danger, anchors);
    if exists|k: int| 0 <= k < lines.len() && #[trigger] ch[k] is Some {
        Some(render(body, lines, ch, lines.len() as int))
    } else {
        None
    }
}

/// `r` is the repair of `body` with the given tree, danger zones and anchors.
pub open spec fn fix_result(
    r: FixOutcome,
    body: Seq<u8>,
    ns: Seq<SyntaxNode>,
    danger: Seq<Interval>,
    anchors: Seq<Option<usize>>,
) -> bool {
    match r {
        FixOutcome::NoChange => repaired(body, ns, danger, anchors) is None,
        FixOutcome::Changed(out) => repaired(body, ns, danger, anchors) == Some(out@),
    }
}

/// `r` is a run of spaces and tabs inside `body`.
pub open spec fn ws_range(body: Seq<u8>, r: (int, int)) -> bool {
    &&& 0 <= r.0 <= r.1 <= body.len()
    &&& forall|k: int| r.0 <= k < r.1 ==> #[trigger] crate::lines::is_ws_byte(body[k])
}

/// The indentation found on a later line is a run of spaces and tabs of `body`.
pub proof fn lemma_next_indent_ws(
    body: Seq<u8>,
    lines: Seq<LineInfo>,
    danger: Seq<Interval>,
    bound: int,
    j: int,
)
    requires
        lines == crate::lines::spec_lines(body),
        body.len() <= usize::MAX,
    ensures
        next_indent_from(body, lines, danger, bound, j) matches Some(r) ==> ws_range(body, r),
    decreases lines.len() - j,
{
    if 0 <= j < lines.len() {
        crate::lines::lemma_line_of(body, j);
        let l = lines[j];
        let content = crate::lines::content_of(body, l);
        lemma_next_indent_ws(body, lines, danger, bound, j + 1);
        crate::lines::lemma_ws_end_bounds(content, 0);
        let w = crate::lines::ws_end(content, 0);
        assert forall|k: int| l.content_start <= k < l.content_start + w implies #[trigger] crate::lines::is_ws_byte(body[k]) by {
            assert(body[k] == content[k - l.content_start]);
        }
    }
}

/// The indentation of a first member is a run of spaces and tabs of `body`.
pub proof fn lemma_member_scan_ws(
    ns: Seq<SyntaxNode>,
    body: Seq<u8>,
    node: int,
    i: int,
    cs: int,
    ce: int,
)
    requires
        crate::syntax::nodes_ok(ns),
        crate::syntax::nodes_fit(ns, body.len() as int),
    ensures
        member_scan(ns, body, node, i, cs, ce) matches Some(r) ==> ws_range(body, r),
    decreases ns.len() - node, ns.len() - i,
{
    if 0 <= node < ns.len() && node < i < ns.len() {
        let child = ns[i];
        if next_index(ns, i) > i {
            lemma_member_scan_ws(ns, body, node, next_index(ns, i), cs, ce);
        }
        if child.kind == NodeKind::Preprocessor {
            lemma_member_scan_ws(ns, body, i, first_child_index(child), cs, ce);
        }
        let rep = if ns[node].kind != NodeKind::LabeledStatement {
            chase_label(ns, i)
        } else {
            i
        };
        lemma_chase_label_in(ns, i);
        assert(crate::syntax::node_ok(ns, rep));
        let pos = ns[rep].start as int;
        crate::lines::lemma_line_start_before_bounds(body, pos);
        crate::lines::lemma_ws_end_bounds(body, crate::lines::line_start_before(body, pos));
    }
}

/// The container found by climbing is a node of the table.
pub proof fn lemma_climb_in(ns: Seq<SyntaxNode>, node: int, pos: int, local: Option<Container>)
    requires
        local matches Some(l) ==> l.node < ns.len(),
    ensures
        climb(ns, node, pos, local) matches Some(c) ==> c.node < ns.len(),
    decreases node,
{
    if 0 <= node < ns.len() && spec_as_container(ns, node, pos) is None {
        let n = ns[node];
        let local2 = if local is None && n.start < pos && pos < n.end {
            Some(Container { node: node as usize, content_start: n.start, content_end: n.end, prefer_next: true })
        } else {
            local
        };
        if let Some(p) = n.parent {
            if p < node {
                lemma_climb_in(ns, p as int, pos, local2);
            }
        }
    }
}

/// The container of a position is a node of the table.
pub proof fn lemma_enclosing_in(ns: Seq<SyntaxNode>, anchor: Option<usize>, pos: int)
    ensures
        spec_enclosing(ns, anchor, pos) matches Some(c) ==> c.node < ns.len(),
{
    if let Some(a) = anchor {
        lemma_climb_in(ns, a as int, pos, None);
    }
}

/// Following labels from a node of the table stays in the table.
pub proof fn lemma_chase_label_in(ns: Seq<SyntaxNode>, rep: int)
    requires
        0 <= rep < ns.len(),
    ensures
        0 <= chase_label(ns, rep) < ns.len(),
    decreases ns.len() - rep,
{
    if ns[rep].kind == NodeKind::LabeledStatement {
        match nth_named(ns, first_child_index(ns[rep]), 1) {
            Some(b) => if rep < b < ns.len() {
                lemma_chase_label_in(ns, b);
            },
            None => {},
        }
    }
}

// ---------------------------------------------------------------------------
// The same rules, executed.
// ---------------------------------------------------------------------------
/// An optional index as an integer, -1 for none.
pub open spec fn idx(o: Option<usize>) -> int {
    match o {
        Some(c) => c as int,
        None => -1,
    }
}

/// An optional index as an optional integer.
pub open spec fn oint(o: Option<usize>) -> Option<int> {
    match o {
        Some(c) => Some(c as int),
        None => None,
    }
}

/// How far a walk along siblings that stands at `cur` can still go.
pub open spec fn chain_left(len: int, cur: Option<usize>) -> int {
    match cur {
        Some(c) => len - c,
        None => 0,
    }
}

/// An optional byte range as an optional pair of integers.
pub open spec fn orange(o: Option<(usize, usize)>) -> Option<(int, int)> {
    match o {
        Some(r) => Some((r.0 as int, r.1 as int)),
        None => None,
    }
}

/// The sibling after node `c`, when its link points forward within the table.
fn next_of(t: &SyntaxTree, c: usize) -> (r: Option<usize>)
    requires
        c < t.nodes@.len(),
    ensures
        idx(r) == next_index(t.nodes@, c as int),
        r matches Some(s) ==> c < s < t.nodes@.len(),
{
    match t.nodes[c].next_sibling {
        Some(s) => if c < s && s < t.nodes.len() {
            Some(s)
        } else {
            None
        },
        None => None,
    }
}

/// The first token of kind `k` among the siblings from `first` on.
fn find_first_token(t: &SyntaxTree, first: Option<usize>, k: NodeKind) -> (r: Option<usize>)
    requires
        first matches Some(c) ==> c < t.nodes@.len(),
    ensures
        oint(r) == first_token(t.nodes@, idx(first), k),
        r matches Some(i) ==> i < t.nodes@.len(),
{
    let ghost ns = t.nodes@;
    let mut cur = first;
    loop
        invariant
            ns == t.nodes@,
            cur matches Some(c) ==> c < ns.len(),
            first_token(ns, idx(first), k) == first_token(ns, idx(cur), k),
        decreases chain_left(ns.len() as int, cur),
    {
        match cur {
            None => {
                return None;
            },
            Some(c) => {
                let n = t.nodes[c];
                if !n.named && n.kind == k {
                    return Some(c);
                }
                cur = next_of(t, c);
            },
        }
    }
}

/// The last token of kind `k` among the siblings from `first` on.
fn find_last_token(t: &SyntaxTree, first: Option<usize>, k: NodeKind) -> (r: Option<usize>)
    requires
        first matches Some(c) ==> c < t.nodes@.len(),
    ensures
        oint(r) == last_token(t.nodes@, idx(first), k, None),
        r matches Some(i) ==> i < t.nodes@.len(),
{
    let ghost ns = t.nodes@;
    let mut cur = first;
    let mut found: Option<usize> = None;
    loop
        invariant
            ns == t.nodes@,
            cur matches Some(c) ==> c < ns.len(),
            found matches Some(i) ==> i < ns.len(),
            last_token(ns, idx(first), k, None) == last_token(ns, idx(cur), k, oint(found)),
        decreases chain_left(ns.len() as int, cur),
    {
        match cur {
            None => {
                return found;
            },
            Some(c) => {
                let n = t.nodes[c];
                if !n.named && n.kind == k {
                    found = Some(c);
                }
                cur = next_of(t, c);
            },
        }
    }
}

/// The content of `node` between its first `open` and its last `close`
/// token, when it holds `pos`.
pub fn delimiter_bounds(
    t: &SyntaxTree,
    node: usize,
    pos: usize,
    open: NodeKind,
    close: NodeKind,
) -> (r: Option<(usize, usize)>)
    requires
        t.well_formed(),
        node < t.nodes@.len(),
    ensures
        orange(r) == spec_delimiter_bounds(t.nodes@, node as int, pos as int, open, close),
{
    let ghost ns = t.nodes@;
    proof {
        assert(crate::syntax::node_ok(ns, node as int));
    }
    let first = t.nodes[node].first_child;
    let opening = find_first_token(t, first, open);
    let closing = find_last_token(t, first, close);
    match (opening, closing) {
        (Some(o), Some(c)) => {
            let start = t.nodes[o].end;
            let end = t.nodes[c].start;
            if start <= pos && pos <= end {
                Some((start, end))
            } else {
                None
            }
        },
        _ => None,
    }
}

/// `node` as a container of `pos`, if it is one.
pub fn as_container(t: &SyntaxTree, node: usize, pos: usize) -> (r: Option<Container>)
    requires
        t.well_formed(),
        node < t.nodes@.len(),
    ensures
        r == spec_as_container(t.nodes@, node as int, pos as int),
{
    let n = t.nodes[node];
    let bounds = if n.kind == NodeKind::CompilationUnit || n.kind == NodeKind::SwitchSection {
        Some((n.start, n.end))
    } else if n.kind == NodeKind::TypeArgumentList || n.kind == NodeKind::TypeParameterList {
        delimiter_bounds(t, node, pos, NodeKind::OpenAngle, NodeKind::CloseAngle)
    } else {
        match delimiter_bounds(t, node, pos, NodeKind::OpenBrace, NodeKind::CloseBrace) {
            Some(b) => Some(b),
            None => match delimiter_bounds(
                t,
                node,
                pos,
                NodeKind::OpenParen,
                NodeKind::CloseParen,
            ) {
                Some(b) => Some(b),
                None => delimiter_bounds(
                    t,
                    node,
                    pos,
                    NodeKind::OpenBracket,
                    NodeKind::CloseBracket,
                ),
            },
        }
    };
    assert(orange(bounds) == spec_bounds(t.nodes@, node as int, pos as int));
    match bounds {
        Some(b) => Some(
            Container { node, content_start: b.0, content_end: b.1, prefer_next: false },
        ),
        None => None,
    }
}

/// The container of `pos`, climbing from `anchor` (the node that the parser
/// finds for `pos`) towards the root.
pub fn enclosing_container(t: &SyntaxTree, anchor: Option<usize>, pos: usize) -> (r: Option<
    Container,
>)
    requires
        t.well_formed(),
    ensures
        r == spec_enclosing(t.nodes@, anchor, pos as int),
        r matches Some(c) ==> c.node < t.nodes@.len(),
{
    let ghost ns = t.nodes@;
    let a = match anchor {
        Some(a) => a,
        None => {
            return None;
        },
    };
    if a >= t.nodes.len() {
        return None;
    }
    let mut node = a;
    let mut local: Option<Container> = None;
    loop
        invariant
            ns == t.nodes@,
            crate::syntax::nodes_ok(ns),
            node < ns.len(),
            local matches Some(l) ==> l.node < ns.len(),
            anchor == Some(a),
            climb(ns, a as int, pos as int, None) == climb(ns, node as int, pos as int, local),
        decreases node,
    {
        match as_container(t, node, pos) {
            Some(c) => {
                if t.nodes[node].has_error {
                    return Some(c);
                }
                return match local {
                    Some(l) => Some(l),
                    None => Some(c),
                };
            },
            None => {},
        }
        let n = t.nodes[node];
        if local.is_none() && n.start < pos && pos < n.end {
            local = Some(
                Container {
                    node,
                    content_start: n.start,
                    content_end: n.end,
                    prefer_next: true,
                },
            );
        }
        assert(crate::syntax::node_ok(ns, node as int));
        match n.parent {
            Some(p) => {
                if p < node {
                    node = p;
                } else {
                    return None;
                }
            },
            None => {
                return None;
            },
        }
    }
}

/// The `n`-th named node (counted from 0) among the siblings from `first` on.
fn nth_named_child(t: &SyntaxTree, first: Option<usize>, n: usize) -> (r: Option<usize>)
    requires
        first matches Some(c) ==> c < t.nodes@.len(),
    ensures
        oint(r) == nth_named(t.nodes@, idx(first), n as nat),
        r matches Some(i) ==> i < t.nodes@.len(),
{
    let ghost ns = t.nodes@;
    let mut cur = first;
    let mut left = n;
    loop
        invariant
            ns == t.nodes@,
            cur matches Some(c) ==> c < ns.len(),
            nth_named(ns, idx(first), n as nat) == nth_named(ns, idx(cur), left as nat),
        decreases chain_left(ns.len() as int, cur),
    {
        match cur {
            None => {
                return None;
            },
            Some(c) => {
                let named = t.nodes[c].named;
                if named && left == 0 {
                    return Some(c);
                }
                if named {
                    left = left - 1;
                }
                cur = next_of(t, c);
            },
        }
    }
}

/// The statement that a chain of labels starting at `from` introduces.
fn follow_labels(t: &SyntaxTree, from: usize) -> (r: usize)
    requires
        t.well_formed(),
        from < t.nodes@.len(),
    ensures
        r == chase_label(t.nodes@, from as int),
        r < t.nodes@.len(),
{
    let ghost ns = t.nodes@;
    let mut rep = from;
    let ghost start = from;
    loop
        invariant
            ns == t.nodes@,
            crate::syntax::nodes_ok(ns),
            rep < ns.len(),
            start == from,
            chase_label(ns, start as int) == chase_label(ns, rep as int),
        decreases ns.len() - rep,
    {
        if t.nodes[rep].kind != NodeKind::LabeledStatement {
            return rep;
        }
        assert(crate::syntax::node_ok(ns, rep as int));
        match nth_named_child(t, t.nodes[rep].first_child, 1) {
            Some(b) => {
                if rep < b && b < t.nodes.len() {
                    rep = b;
                } else {
                    return rep;
                }
            },
            None => {
                return rep;
            },
        }
    }
}

/// The indentation that the first member of `node` gives, scanning its
/// children from `first` on (see `member_scan`).
fn scan_members(
    t: &SyntaxTree,
    body: &[u8],
    node: usize,
    first: Option<usize>,
    cs: usize,
    ce: usize,
) -> (r: Option<(usize, usize)>)
    requires
        t.well_formed(),
        t.fits(body@.len() as int),
        node < t.nodes@.len(),
        first matches Some(c) ==> c < t.nodes@.len(),
    ensures
        orange(r) == member_scan(
            t.nodes@,
            body@,
            node as int,
            idx(first),
            cs as int,
            ce as int,
        ),
    decreases t.nodes@.len() - node,
{
    let ghost ns = t.nodes@;
    let mut cur = first;
    loop
        invariant
            ns == t.nodes@,
            crate::syntax::nodes_ok(ns),
            crate::syntax::nodes_fit(ns, body@.len() as int),
            node < ns.len(),
            cur matches Some(c) ==> c < ns.len(),
            member_scan(ns, body@, node as int, idx(first), cs as int, ce as int) == member_scan(
                ns,
                body@,
                node as int,
                idx(cur),
                cs as int,
                ce as int,
            ),
        decreases chain_left(ns.len() as int, cur),
    {
        let i = match cur {
            Some(i) => i,
            None => {
                return None;
            },
        };
        if i <= node {
            return None;
        }
        let child = t.nodes[i];
        let next = next_of(t, i);
        if !child.named || child.start < cs {
            cur = next;
            continue ;
        }
        if child.start >= ce {
            return None;
        }
        if child.kind == NodeKind::Comment {
            cur = next;
            continue ;
        }
        if child.kind == NodeKind::Preprocessor {
            assert(crate::syntax::node_ok(ns, i as int));
            match scan_members(t, body, i, child.first_child, cs, ce) {
                Some(r) => {
                    return Some(r);
                },
                None => {},
            }
            cur = next;
            continue ;
        }
        let parent = t.nodes[node];
        if parent.kind != NodeKind::CompilationUnit && child.start_row == parent.start_row {
            cur = next;
            continue ;
        }
        let rep = if parent.kind != NodeKind::LabeledStatement {
            follow_labels(t, i)
        } else {
            i
        };
        assert(crate::syntax::node_ok(ns, rep as int));
        return Some(leading_ws_of_line(body, t.nodes[rep].start));
    }
}

/// The indentation of the first member of a container.
pub fn first_member_indent(t: &SyntaxTree, body: &[u8], c: Container) -> (r: Option<(usize, usize)>)
    requires
        t.well_formed(),
        t.fits(body@.len() as int),
        c.node < t.nodes@.len(),
    ensures
        orange(r) == spec_first_member_indent(t.nodes@, body@, c),
{
    assert(crate::syntax::node_ok(t.nodes@, c.node as int));
    scan_members(t, body, c.node, t.nodes[c.node].first_child, c.content_start, c.content_end)
}

/// The leading whitespace of the first line after line `idx` that holds
/// code, is no preprocessor directive and does not start in a danger zone;
/// nothing when the code of such a line starts after `content_end` first.
pub fn find_next_nonblank_indent(
    body: &[u8],
    lines: &Vec<LineInfo>,
    idx: usize,
    danger: &[Interval],
    content_end: usize,
) -> (r: Option<(usize, usize)>)
    requires
        lines@ == crate::lines::spec_lines(body@),
        crate::danger::sorted_intervals(danger@),
    ensures
        orange(r) == next_indent_from(body@, lines@, danger@, content_end as int, idx + 1),
{
    let blen = body.len();
    let nlines = lines.len();
    if idx >= nlines {
        return None;
    }
    let mut j = idx + 1;
    while j < lines.len()
        invariant
            blen == body@.len(),
            lines@ == crate::lines::spec_lines(body@),
            crate::danger::sorted_intervals(danger@),
            idx + 1 <= j,
            next_indent_from(body@, lines@, danger@, content_end as int, idx + 1)
                == next_indent_from(body@, lines@, danger@, content_end as int, j as int),
        decreases lines@.len() - j,
    {
        let cand = lines[j];
        proof {
            crate::lines::lemma_line_of(body@, j as int);
        }
        let content = vstd::slice::slice_subrange(body, cand.content_start, cand.content_end);
        if is_blank(content) {
            j = j + 1;
            continue ;
        }
        let indent = leading_ws(content);
        let w = indent.len();
        let code = cand.content_start + w;
        if code > content_end {
            return None;
        }
        if (w < content.len() && content[w] == HASH) || byte_in_any(danger, code) {
            j = j + 1;
            continue ;
        }
        return Some((cand.content_start, code));
    }
    None
}

/// Whether two byte ranges of `body` hold the same bytes.
fn same_bytes(body: &[u8], a: usize, b: usize, c: usize, d: usize) -> (r: bool)
    requires
        a <= b <= body@.len(),
        c <= d <= body@.len(),
    ensures
        r == (body@.subrange(a as int, b as int) == body@.subrange(c as int, d as int)),
{
    if b - a != d - c {
        assert(body@.subrange(a as int, b as int).len() != body@.subrange(c as int, d as int).len());
        return false;
    }
    let mut i: usize = 0;
    while i < b - a
        invariant
            a <= b <= body@.len(),
            c <= d <= body@.len(),
            b - a == d - c,
            i <= b - a,
            forall|k: int|
                0 <= k < i ==> #[trigger] body@.subrange(a as int, b as int)[k] == body@.subrange(
                    c as int,
                    d as int,
                )[k],
        decreases b - a - i,
    {
        if body[a + i] != body[c + i] {
            assert(body@.subrange(a as int, b as int)[i as int] != body@.subrange(
                c as int,
                d as int,
            )[i as int]);
            return false;
        }
        i = i + 1;
    }
    assert(body@.subrange(a as int, b as int) =~= body@.subrange(c as int, d as int));
    true
}

/// The indentation chosen for line `k`, if it is to change.
fn choose_line_indent(
    body: &[u8],
    lines: &Vec<LineInfo>,
    k: usize,
    tree: &SyntaxTree,
    danger: &[Interval],
    anchor: Option<usize>,
) -> (r: Option<(usize, usize)>)
    requires
        lines@ == crate::lines::spec_lines(body@),
        k < lines@.len(),
        tree.well_formed(),
        tree.fits(body@.len() as int),
        crate::danger::sorted_intervals(danger@),
    ensures
        orange(r) == line_choice(body@, tree.nodes@, danger@, anchor, lines@, k as int),
        r matches Some(p) ==> p.0 <= p.1 <= body@.len(),
{
    let blen = body.len();
    proof {
        crate::lines::lemma_line_of(body@, k as int);
    }
    let line = lines[k];
    let content = vstd::slice::slice_subrange(body, line.content_start, line.content_end);
    if !is_blank(content) {
        return None;
    }
    if range_overlaps_any(danger, line.content_start, line.full_end) {
        return None;
    }
    let container = enclosing_container(tree, anchor, line.content_start);
    match container {
        Some(c) => {
            if tree.nodes[c.node].has_error {
                return None;
            }
        },
        None => {},
    }
    let chosen = match container {
        Some(c) => {
            if c.prefer_next {
                match find_next_nonblank_indent(body, lines, k, danger, c.content_end) {
                    Some(r) => Some(r),
                    None => first_member_indent(tree, body, c),
                }
            } else {
                match first_member_indent(tree, body, c) {
                    Some(r) => Some(r),
                    None => find_next_nonblank_indent(body, lines, k, danger, c.content_end),
                }
            }
        },
        None => find_next_nonblank_indent(body, lines, k, danger, body.len()),
    };
    match chosen {
        Some(r) => {
            proof {
                lemma_next_indent_ws(body@, lines@, danger@, body.len() as int, k + 1);
                if let Some(c) = container {
                    lemma_next_indent_ws(body@, lines@, danger@, c.content_end as int, k + 1);
                    lemma_member_scan_ws(
                        tree.nodes@,
                        body@,
                        c.node as int,
                        first_child_index(tree.nodes@[c.node as int]),
                        c.content_start as int,
                        c.content_end as int,
                    );
                }
            }
            if r.0 == r.1 || same_bytes(body, r.0, r.1, line.content_start, line.content_end) {
                None
            } else {
                Some(r)
            }
        },
        None => None,
    }
}

/// Appends the bytes `src[from..to]` to `out`.
fn append_range(out: &mut Vec<u8>, src: &[u8], from: usize, to: usize)
    requires
        from <= to <= src@.len(),
    ensures
        final(out)@ == old(out)@ + src@.subrange(from as int, to as int),
{
    let ghost start = out@;
    let mut i = from;
    while i < to
        invariant
            from <= i <= to <= src@.len(),
            out@ == start + src@.subrange(from as int, i as int),
        decreases to - i,
    {
        out.push(src[i]);
        proof {
            assert(src@.subrange(from as int, i + 1) == src@.subrange(from as int, i as int).push(
                src@[i as int],
            ));
        }
        i = i + 1;
    }
}

/// Repairs the blank lines of `body`, given its syntax tree, its danger zones
/// and, for each line, the node that the parser finds at the start of the
/// line (`anchors`; only the entries of blank lines outside the danger zones
/// are read).
pub fn fix_blank_lines_at(
    body: &[u8],
    tree: &SyntaxTree,
    danger: &[Interval],
    anchors: &[Option<usize>],
) -> (r: FixOutcome)
    requires
        tree.well_formed(),
        tree.fits(body@.len() as int),
        crate::danger::sorted_intervals(danger@),
        anchors@.len() == crate::lines::spec_lines(body@).len(),
    ensures
        fix_result(r, body@, tree.nodes@, danger@, anchors@),
{
    let lines = split_lines(body);
    let blen = body.len();
    let ghost ch = choices(body@, tree.nodes@, danger@, anchors@);
    let mut new_indent: Vec<Option<(usize, usize)>> = Vec::new();
    let mut any = false;
    let mut idx: usize = 0;
    while idx < lines.len()
        invariant
            lines@ == crate::lines::spec_lines(body@),
            ch == choices(body@, tree.nodes@, danger@, anchors@),
            anchors@.len() == lines@.len(),
            tree.well_formed(),
            tree.fits(body@.len() as int),
            crate::danger::sorted_intervals(danger@),
            idx <= lines@.len(),
            new_indent@.len() == idx,
            forall|k: int| 0 <= k < idx ==> orange(#[trigger] new_indent@[k]) == ch[k],
            forall|k: int|
                0 <= k < idx ==> (#[trigger] new_indent@[k] matches Some(p) ==> p.0 <= p.1
                    <= body@.len()),
            any == (exists|k: int| 0 <= k < idx && #[trigger] ch[k] is Some),
        decreases lines@.len() - idx,
    {
        let choice = choose_line_indent(body, &lines, idx, tree, danger, anchors[idx]);
        proof {
            assert(ch[idx as int] == line_choice(
                body@,
                tree.nodes@,
                danger@,
                anchors@[idx as int],
                lines@,
                idx as int,
            ));
            if choice is Some {
                assert(ch[idx as int] is Some);
            }
            if any {
                let k = choose|k: int| 0 <= k < idx && #[trigger] ch[k] is Some;
                assert(0 <= k < idx + 1 && ch[k] is Some);
            }
        }
        if choice.is_some() {
            any = true;
        }
        new_indent.push(choice);
        idx = idx + 1;
    }
    if !any {
        return FixOutcome::NoChange;
    }
    let mut out: Vec<u8> = Vec::new();
    let mut idx: usize = 0;
    while idx < lines.len()
        invariant
            lines@ == crate::lines::spec_lines(body@),
            blen == body@.len(),
            new_indent@.len() == lines@.len(),
            forall|k: int| 0 <= k < lines@.len() ==> orange(#[trigger] new_indent@[k]) == ch[k],
            forall|k: int|
                0 <= k < lines@.len() ==> (#[trigger] new_indent@[k] matches Some(p) ==> p.0
                    <= p.1 <= body@.len()),
            idx <= lines@.len(),
            out@ == render(body@, lines@, ch, idx as int),
        decreases lines@.len() - idx,
    {
        let line = lines[idx];
        proof {
            crate::lines::lemma_line_of(body@, idx as int);
        }
        let ghost before = out@;
        match new_indent[idx] {
            Some(ws) => {
                append_range(&mut out, body, ws.0, ws.1);
                append_range(&mut out, body, line.content_end, line.full_end);
                proof {
                    assert(new_indent@[idx as int] == Some(ws));
                    assert(ch[idx as int] == Some((ws.0 as int, ws.1 as int)));
                    assert(out@ =~= before + (body@.subrange(ws.0 as int, ws.1 as int)
                        + crate::lines::newline_of(body@, line)));
                }
            },
            None => {
                append_range(&mut out, body, line.content_start, line.full_end);
                proof {
                    assert(ch[idx as int] is None);
                }
            },
        }
        idx = idx + 1;
    }
    FixOutcome::Changed(out)
}

/// One anchor per line of `body`; an anchor is a named node of the table.
pub open spec fn anchors_ok(body: Seq<u8>, ns: Seq<SyntaxNode>, anchors: Seq<Option<usize>>) -> bool {
    let lines = crate::lines::spec_lines(body);
    &&& anchors.len() == lines.len()
    &&& forall|k: int|
        0 <= k < anchors.len() ==> (#[trigger] anchors[k] matches Some(i) ==> 0 <= i < ns.len()
            && ns[i as int].named)
}

/// The anchor that `fix_blank_lines` asks for on line `l` of `body`: for a
/// blank line outside the danger zones, the anchor at the start of its
/// content for the node that tree-sitter's parse of `source` finds there; for
/// any other line, nothing.
pub open spec fn parser_anchor_ok(
    body: Seq<u8>,
    ns: Seq<SyntaxNode>,
    danger: Seq<Interval>,
    source: Seq<u8>,
    l: LineInfo,
    anchor: Option<usize>,
) -> bool {
    if crate::lines::blank(crate::lines::content_of(body, l))
        && !crate::danger::spec_range_overlaps_any(
        danger,
        l.content_start as int,
        l.full_end as int,
    ) {
        crate::csharp::is_anchor(
            ns,
            crate::csharp::csharp_named_span(source, l.content_start),
            anchor,
        )
    } else {
        anchor is None
    }
}

/// `anchors` holds, for each line of `body`, the anchor that
/// `parser_anchor_ok` describes.
pub open spec fn parser_anchors(
    body: Seq<u8>,
    ns: Seq<SyntaxNode>,
    danger: Seq<Interval>,
    source: Seq<u8>,
    anchors: Seq<Option<usize>>,
) -> bool {
    let lines = crate::lines::spec_lines(body);
    &&& anchors.len() == lines.len()
    &&& forall|k: int|
        0 <= k < lines.len() ==> parser_anchor_ok(body, ns, danger, source, lines[k], #[trigger] anchors[k])
}

/// The anchor at a position is determined by the parser's answer there.
pub proof fn lemma_anchor_unique(
    ns: Seq<SyntaxNode>,
    span: Option<(usize, usize)>,
    r1: Option<usize>,
    r2: Option<usize>,
)
    requires
        crate::csharp::is_anchor(ns, span, r1),
        crate::csharp::is_anchor(ns, span, r2),
    ensures
        r1 == r2,
{
    if let Some(sp) = span {
        if let (Some(i), Some(j)) = (r1, r2) {
            if i < j {
                assert(crate::csharp::deepest_candidate(ns, sp, i as int));
            }
            if j < i {
                assert(crate::csharp::deepest_candidate(ns, sp, j as int));
            }
        } else if let Some(i) = r1 {
            assert(crate::csharp::deepest_candidate(ns, sp, i as int));
        } else if let Some(j) = r2 {
            assert(crate::csharp::deepest_candidate(ns, sp, j as int));
        }
    }
}

/// There is one list of anchors that `parser_anchors` describes for a
/// buffer, a table, its danger zones and a parsed text.
pub proof fn lemma_parser_anchors_unique(
    body: Seq<u8>,
    ns: Seq<SyntaxNode>,
    danger: Seq<Interval>,
    source: Seq<u8>,
    a1: Seq<Option<usize>>,
    a2: Seq<Option<usize>>,
)
    requires
        parser_anchors(body, ns, danger, source, a1),
        parser_anchors(body, ns, danger, source, a2),
    ensures
        a1 == a2,
{
    let lines = crate::lines::spec_lines(body);
    assert forall|k: int| 0 <= k < a1.len() implies a1[k] == a2[k] by {
        assert(parser_anchor_ok(body, ns, danger, source, lines[k], a1[k]));
        assert(parser_anchor_ok(body, ns, danger, source, lines[k], a2[k]));
        let l = lines[k];
        if crate::lines::blank(crate::lines::content_of(body, l))
            && !crate::danger::spec_range_overlaps_any(
            danger,
            l.content_start as int,
            l.full_end as int,
        ) {
            lemma_anchor_unique(
                ns,
                crate::csharp::csharp_named_span(source, l.content_start),
                a1[k],
                a2[k],
            );
        }
    }
    assert(a1 =~= a2);
}

/// The parser's anchors are named nodes of the table.
pub proof fn lemma_parser_anchors_ok(
    body: Seq<u8>,
    ns: Seq<SyntaxNode>,
    danger: Seq<Interval>,
    source: Seq<u8>,
    anchors: Seq<Option<usize>>,
)
    requires
        parser_anchors(body, ns, danger, source, anchors),
    ensures
        anchors_ok(body, ns, anchors),
{
    let lines = crate::lines::spec_lines(body);
    assert forall|k: int| 0 <= k < anchors.len() implies (#[trigger] anchors[k] matches Some(i)
        ==> 0 <= i < ns.len() && ns[i as int].named) by {
        assert(parser_anchor_ok(body, ns, danger, source, lines[k], anchors[k]));
    }
}

/// Repairs the blank lines of `body` with its parsed tree and danger zones.
/// The container of a blank line is sought from the node that the parser
/// finds at the start of the line (the smallest named node that spans it, or
/// the root when none does); those anchors are the ones that
/// `parser_anchors` describes, and there is only one such list
/// (`lemma_parser_anchors_unique`).
pub fn fix_blank_lines(body: &[u8], tree: &ParsedTree, danger: &[Interval]) -> (r: FixOutcome)
    requires
        tree.syntax.well_formed(),
        tree.syntax.fits(body@.len() as int),
        crate::danger::sorted_intervals(danger@),
    ensures
        exists|anchors: Seq<Option<usize>>|
            parser_anchors(body@, tree.syntax.nodes@, danger@, tree.tree.source(), anchors)
                && fix_result(r, body@, tree.syntax.nodes@, danger@, anchors),
{
    let lines = split_lines(body);
    let blen = body.len();
    let ghost ns = tree.syntax.nodes@;
    let ghost source = tree.tree.source();
    let mut anchors: Vec<Option<usize>> = Vec::new();
    let mut idx: usize = 0;
    while idx < lines.len()
        invariant
            lines@ == crate::lines::spec_lines(body@),
            ns == tree.syntax.nodes@,
            source == tree.tree.source(),
            blen == body@.len(),
            crate::danger::sorted_intervals(danger@),
            idx <= lines@.len(),
            anchors@.len() == idx,
            forall|k: int|
                0 <= k < idx ==> parser_anchor_ok(
                    body@,
                    ns,
                    danger@,
                    source,
                    lines@[k],
                    #[trigger] anchors@[k],
                ),
        decreases lines@.len() - idx,
    {
        let line = lines[idx];
        proof {
            crate::lines::lemma_line_of(body@, idx as int);
        }
        let content = vstd::slice::slice_subrange(body, line.content_start, line.content_end);
        let anchor = if is_blank(content) && !range_overlaps_any(
            danger,
            line.content_start,
            line.full_end,
        ) {
            anchor_at(tree, line.content_start)
        } else {
            None
        };
        assert(parser_anchor_ok(body@, ns, danger@, source, line, anchor));
        anchors.push(anchor);
        idx = idx + 1;
    }
    assert(parser_anchors(body@, ns, danger@, source, anchors@));
    fix_blank_lines_at(body, &tree.syntax, danger, anchors.as_slice())
}

} // verus!
