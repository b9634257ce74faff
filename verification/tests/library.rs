// Tests of the library's parts on concrete values.

use fix_cs_indent::csharp::{anchor_at, anchor_in_table, parse_csharp, ParseOutcome};
use fix_cs_indent::danger::{byte_in_any, collect, range_overlaps_any, Interval};
use fix_cs_indent::fix::{fix_blank_lines_at, FixOutcome};
use fix_cs_indent::hook::{bom_len, hook_file_path, is_cs_extension, process_source, SourceOutcome};
use fix_cs_indent::lines::{is_blank, leading_ws, leading_ws_of_line, split_lines};
use fix_cs_indent::syntax::{kind_of, NodeKind, SyntaxNode, SyntaxTree};

fn iv(start: usize, end: usize) -> Interval {
    Interval { start, end }
}

fn spans(v: &[Interval]) -> Vec<(usize, usize)> {
    v.iter().map(|i| (i.start, i.end)).collect()
}

fn node(
    kind: NodeKind,
    named: bool,
    start: usize,
    end: usize,
    parent: Option<usize>,
    first_child: Option<usize>,
    next_sibling: Option<usize>,
) -> SyntaxNode {
    SyntaxNode {
        kind,
        named,
        error: false,
        has_error: false,
        start,
        end,
        start_row: 0,
        parent,
        first_child,
        next_sibling,
    }
}

#[test]
fn byte_in_any_finds_the_interval_that_holds_the_byte() {
    let zones = [iv(2, 5), iv(8, 10)];
    let answers: Vec<bool> = (0..12).map(|b| byte_in_any(&zones, b)).collect();
    assert_eq!(
        answers,
        vec![false, false, true, true, true, false, false, false, true, true, false, false]
    );
    assert!(!byte_in_any(&[], 0));
}

#[test]
fn range_overlaps_any_needs_a_shared_byte() {
    let zones = [iv(2, 5), iv(8, 10)];
    assert!(!range_overlaps_any(&zones, 0, 2));
    assert!(range_overlaps_any(&zones, 0, 3));
    assert!(!range_overlaps_any(&zones, 5, 8));
    assert!(range_overlaps_any(&zones, 4, 9));
    assert!(range_overlaps_any(&zones, 9, 20));
    // An empty range asks about the byte at its start.
    assert!(range_overlaps_any(&zones, 4, 4));
    assert!(!range_overlaps_any(&zones, 5, 5));
    assert!(!range_overlaps_any(&zones, 6, 3));
}

#[test]
fn split_lines_keeps_line_endings_apart() {
    let lines = split_lines(b"a\r\nb\nc");
    let got: Vec<(usize, usize, usize)> =
        lines.iter().map(|l| (l.content_start, l.content_end, l.full_end)).collect();
    assert_eq!(got, vec![(0, 1, 3), (3, 4, 5), (5, 6, 6)]);
    assert!(split_lines(b"").is_empty());
    let one = split_lines(b"\n");
    assert_eq!((one.len(), one[0].content_start, one[0].content_end, one[0].full_end), (1, 0, 0, 1));
    let crlf = split_lines(b"\r\n\r\n");
    assert_eq!(crlf.len(), 2);
    assert_eq!((crlf[1].content_start, crlf[1].content_end, crlf[1].full_end), (2, 2, 4));
    // A lone carriage return at the end is content, not a line ending.
    let cr = split_lines(b"a\r");
    assert_eq!((cr.len(), cr[0].content_end, cr[0].full_end), (1, 2, 2));
}

#[test]
fn blank_means_spaces_and_tabs_only() {
    assert!(is_blank(b""));
    assert!(is_blank(b" \t  "));
    assert!(!is_blank(b"  x"));
    assert!(!is_blank(b"\r"));
}

#[test]
fn leading_whitespace_of_content_and_of_a_line() {
    assert_eq!(leading_ws(b"  \tx  "), b"  \t");
    assert_eq!(leading_ws(b"x"), b"");
    assert_eq!(leading_ws(b"   "), b"   ");
    let body = b"a\n    b c\n";
    assert_eq!(leading_ws_of_line(body, 7), (2, 6));
    assert_eq!(leading_ws_of_line(body, 0), (0, 0));
    assert_eq!(leading_ws_of_line(body, body.len()), (10, 10));
}

#[test]
fn kinds_are_told_apart_by_name() {
    assert_eq!(kind_of("compilation_unit"), NodeKind::CompilationUnit);
    assert_eq!(kind_of("switch_section"), NodeKind::SwitchSection);
    assert_eq!(kind_of("type_parameter_list"), NodeKind::TypeParameterList);
    assert_eq!(kind_of("labeled_statement"), NodeKind::LabeledStatement);
    assert_eq!(kind_of("comment"), NodeKind::Comment);
    assert_eq!(kind_of("preproc_if"), NodeKind::Preprocessor);
    assert_eq!(kind_of("preproc_"), NodeKind::Preprocessor);
    assert_eq!(kind_of("preproc"), NodeKind::Other);
    assert_eq!(kind_of("raw_string_literal"), NodeKind::StringLiteral);
    assert_eq!(kind_of("interpolated_string_expression"), NodeKind::StringLiteral);
    assert_eq!(kind_of("{"), NodeKind::OpenBrace);
    assert_eq!(kind_of(">"), NodeKind::CloseAngle);
    assert_eq!(kind_of("identifier"), NodeKind::Other);
}

#[test]
fn node_tables_are_checked() {
    assert!(SyntaxTree::from_nodes(vec![], 10).is_none());
    let root = node(NodeKind::CompilationUnit, true, 0, 10, None, None, None);
    assert!(SyntaxTree::from_nodes(vec![root], 10).is_some());
    // A node that ends after the source.
    assert!(SyntaxTree::from_nodes(vec![root], 9).is_none());
    // A parent that does not come first.
    let bad = node(NodeKind::Other, true, 0, 1, Some(1), None, None);
    assert!(SyntaxTree::from_nodes(vec![root, bad], 10).is_none());
    // A first child outside the table.
    let dangling = node(NodeKind::CompilationUnit, true, 0, 10, None, Some(5), None);
    assert!(SyntaxTree::from_nodes(vec![dangling], 10).is_none());
    // A child that reaches past its parent.
    let root = node(NodeKind::CompilationUnit, true, 0, 6, None, Some(1), None);
    let wide = node(NodeKind::Other, true, 2, 8, Some(0), None, None);
    assert!(SyntaxTree::from_nodes(vec![root, wide], 10).is_none());
    // A child that holds an error its parent does not.
    let root = node(NodeKind::CompilationUnit, true, 0, 10, None, Some(1), None);
    let mut broken = node(NodeKind::Other, true, 2, 8, Some(0), None, None);
    broken.has_error = true;
    assert!(SyntaxTree::from_nodes(vec![root, broken], 10).is_none());
}

#[test]
fn collect_merges_the_outermost_danger_zones_in_order() {
    let mut err = node(NodeKind::Other, true, 12, 12, Some(0), None, None);
    err.error = true;
    let nodes = vec![
        node(NodeKind::CompilationUnit, true, 0, 30, None, Some(1), None),
        // Listed after a zone that starts earlier: the result is sorted.
        node(NodeKind::StringLiteral, true, 20, 24, Some(0), Some(2), Some(3)),
        // Inside the string: not a zone of its own.
        node(NodeKind::Comment, true, 21, 22, Some(1), None, None),
        node(NodeKind::Comment, true, 2, 5, Some(0), None, Some(4)),
        node(NodeKind::StringLiteral, true, 4, 9, Some(0), None, Some(5)),
        node(NodeKind::Comment, true, 9, 11, Some(0), None, Some(6)),
        err,
        node(NodeKind::Other, true, 24, 26, Some(0), None, None),
    ];
    let tree = SyntaxTree::from_nodes(nodes, 30).unwrap();
    let zones = collect(&tree);
    assert_eq!(spans(&zones), vec![(2, 11), (12, 12), (20, 24)]);
}

#[test]
fn fix_with_given_anchors_uses_the_first_member_indent() {
    // class body: "{\n  a;\n\n  b;\n}\n"
    let body = b"{\n  a;\n\n  b;\n}\n";
    let nodes = vec![
        node(NodeKind::CompilationUnit, true, 0, 15, None, Some(1), None),
        node(NodeKind::Other, true, 0, 14, Some(0), Some(2), None),
        node(NodeKind::OpenBrace, false, 0, 1, Some(1), None, Some(3)),
        SyntaxNode { start_row: 1, ..node(NodeKind::Other, true, 4, 6, Some(1), None, Some(4)) },
        SyntaxNode { start_row: 3, ..node(NodeKind::Other, true, 10, 12, Some(1), None, Some(5)) },
        SyntaxNode { start_row: 4, ..node(NodeKind::CloseBrace, false, 13, 14, Some(1), None, None) },
    ];
    let tree = SyntaxTree::from_nodes(nodes, body.len()).unwrap();
    let anchors = [None, None, Some(1), None, None];
    match fix_blank_lines_at(body, &tree, &[], &anchors) {
        FixOutcome::Changed(out) => assert_eq!(out, b"{\n  a;\n  \n  b;\n}\n".to_vec()),
        FixOutcome::NoChange => panic!("expected a change"),
    }
    // Inside a danger zone the blank line stays.
    match fix_blank_lines_at(body, &tree, &[iv(6, 9)], &anchors) {
        FixOutcome::NoChange => {}
        FixOutcome::Changed(out) => panic!("unexpected change {:?}", out),
    }
    // Without an anchor the next line with code gives the indentation.
    let none = [None, None, None, None, None];
    match fix_blank_lines_at(body, &tree, &[], &none) {
        FixOutcome::Changed(out) => assert_eq!(out, b"{\n  a;\n  \n  b;\n}\n".to_vec()),
        FixOutcome::NoChange => panic!("expected a change"),
    }
}

#[test]
fn fix_skips_a_container_with_an_error() {
    let body = b"{\n  a;\n\n  b;\n}\n";
    let mut block = node(NodeKind::Other, true, 0, 14, Some(0), Some(2), None);
    block.has_error = true;
    let mut root = node(NodeKind::CompilationUnit, true, 0, 15, None, Some(1), None);
    root.has_error = true;
    let nodes = vec![
        root,
        block,
        node(NodeKind::OpenBrace, false, 0, 1, Some(1), None, Some(3)),
        node(NodeKind::CloseBrace, false, 13, 14, Some(1), None, None),
    ];
    let tree = SyntaxTree::from_nodes(nodes, body.len()).unwrap();
    let anchors = [None, None, Some(1), None, None];
    assert!(matches!(fix_blank_lines_at(body, &tree, &[], &anchors), FixOutcome::NoChange));
}

#[test]
fn an_error_in_the_structural_scope_blocks_a_local_scope() {
    let body = b"{\n  a;\n\n  b;\n}\n";
    let mut root = node(NodeKind::CompilationUnit, true, 0, 15, None, Some(1), None);
    let mut block = node(NodeKind::Other, true, 0, 14, Some(0), Some(2), None);
    let local = node(NodeKind::Other, true, 1, 12, Some(1), None, Some(4));
    let nodes = |root: SyntaxNode, block: SyntaxNode| {
        vec![
            root,
            block,
            node(NodeKind::OpenBrace, false, 0, 1, Some(1), None, Some(3)),
            local,
            node(NodeKind::CloseBrace, false, 13, 14, Some(1), None, None),
        ]
    };
    let anchors = [None, None, Some(3), None, None];
    // Without an error the local scope gives the next line's indentation.
    let tree = SyntaxTree::from_nodes(nodes(root, block), body.len()).unwrap();
    assert!(matches!(fix_blank_lines_at(body, &tree, &[], &anchors), FixOutcome::Changed(_)));
    root.has_error = true;
    block.has_error = true;
    let tree = SyntaxTree::from_nodes(nodes(root, block), body.len()).unwrap();
    assert!(matches!(fix_blank_lines_at(body, &tree, &[], &anchors), FixOutcome::NoChange));
}

#[test]
fn parsed_tree_has_a_compilation_unit_root_and_anchors() {
    let src = b"class A\n{\n    int x;\n\n    int y;\n}\n";
    match parse_csharp(src) {
        ParseOutcome::Parsed(p) => {
            assert_eq!(p.syntax.nodes[0].kind, NodeKind::CompilationUnit);
            assert_eq!(p.syntax.nodes[0].start, 0);
            assert!(p.syntax.nodes.iter().all(|n| n.start <= n.end && n.end <= src.len()));
            let a = anchor_at(&p, 21).expect("a node spans the blank line");
            assert!(p.syntax.nodes[a].named);
            assert!(collect(&p.syntax).is_empty());
        }
        _ => panic!("the parser should give a tree"),
    }
}

#[test]
fn anchor_in_table_finds_the_named_node_with_the_span() {
    let root = node(NodeKind::CompilationUnit, true, 0, 20, None, Some(1), None);
    let brace = node(NodeKind::OpenBrace, false, 2, 3, Some(0), None, Some(2));
    let member = node(NodeKind::Other, true, 5, 12, Some(0), None, None);
    let tree = SyntaxTree::from_nodes(vec![root, brace, member], 20).expect("a valid table");
    assert_eq!(anchor_in_table(&tree, Some((5, 12))), Some(2));
    assert_eq!(anchor_in_table(&tree, Some((0, 20))), Some(0));
    // An anonymous node is no anchor.
    assert_eq!(anchor_in_table(&tree, Some((2, 3))), None);
    // No node has the span, or the parser found none.
    assert_eq!(anchor_in_table(&tree, Some((4, 5))), None);
    assert_eq!(anchor_in_table(&tree, None), None);
}

#[test]
fn anchor_in_table_takes_the_deepest_of_nested_nodes_with_one_span() {
    let root = node(NodeKind::CompilationUnit, true, 0, 20, None, Some(1), None);
    let outer = node(NodeKind::Other, true, 4, 9, Some(0), Some(2), None);
    let inner = node(NodeKind::Other, true, 4, 9, Some(1), None, None);
    let tree = SyntaxTree::from_nodes(vec![root, outer, inner], 20).expect("a valid table");
    assert_eq!(anchor_in_table(&tree, Some((4, 9))), Some(2));
}

#[test]
fn anchor_in_table_takes_the_first_of_siblings_with_one_span() {
    let root = node(NodeKind::CompilationUnit, true, 0, 20, None, Some(1), None);
    let first = node(NodeKind::Other, true, 6, 6, Some(0), None, Some(2));
    let second = node(NodeKind::Other, true, 6, 6, Some(0), None, None);
    let tree = SyntaxTree::from_nodes(vec![root, first, second], 20).expect("a valid table");
    assert_eq!(anchor_in_table(&tree, Some((6, 6))), Some(1));
}

#[test]
fn a_blank_line_before_the_first_token_has_the_root_as_scope() {
    // The root starts after the leading blank line; the parser still gives it.
    let body = b"\n  x\n";
    let mut root = node(NodeKind::CompilationUnit, true, 1, 5, None, None, None);
    root.has_error = true;
    let tree = SyntaxTree::from_nodes(vec![root], body.len()).unwrap();
    let anchor = anchor_in_table(&tree, Some((1, 5)));
    assert_eq!(anchor, Some(0));
    let anchors = [anchor, None, None];
    assert!(matches!(fix_blank_lines_at(body, &tree, &[], &anchors), FixOutcome::NoChange));
}

#[test]
fn a_syntax_error_keeps_a_leading_blank_line() {
    let src = b"\n  class A\n  {\n    int x\n  }\n";
    match process_source(src) {
        SourceOutcome::NoChange => {}
        other => panic!("unexpected outcome {:?}", other),
    }
}

#[test]
fn parsed_table_links_follow_the_tree() {
    let src = b"class A\n{\n    int x;\n}\n";
    match parse_csharp(src) {
        ParseOutcome::Parsed(p) => {
            let ns = &p.syntax.nodes;
            assert_eq!(ns[0].parent, None);
            assert_eq!(ns[0].next_sibling, None);
            for (i, n) in ns.iter().enumerate() {
                if let Some(c) = n.first_child {
                    assert_eq!(c, i + 1);
                    assert_eq!(ns[c].parent, Some(i));
                }
                if let Some(s) = n.next_sibling {
                    assert_eq!(ns[s].parent, n.parent);
                }
                if let Some(q) = n.parent {
                    assert!(ns[q].start <= n.start && n.end <= ns[q].end);
                }
            }
        }
        _ => panic!("the parser should give a tree"),
    }
}

#[test]
fn collect_on_a_parsed_comment_and_string() {
    let src = b"class A\n{\n    /* c */\n    string s = \"x\";\n}\n";
    match parse_csharp(src) {
        ParseOutcome::Parsed(p) => {
            let zones = spans(&collect(&p.syntax));
            assert_eq!(zones, vec![(14, 21), (37, 40)]);
        }
        _ => panic!("the parser should give a tree"),
    }
}

#[test]
fn text_that_is_not_utf8_is_left_alone() {
    assert!(matches!(process_source(b"class A { }\n\xff\xfe\n"), SourceOutcome::NotUtf8));
    assert!(matches!(process_source(b"\xEF\xBB\xBF\xc3"), SourceOutcome::NotUtf8));
    assert!(matches!(process_source(b""), SourceOutcome::NoChange));
    assert!(matches!(process_source(b"\xEF\xBB\xBF"), SourceOutcome::NoChange));
}

#[test]
fn fixed_file_keeps_line_count_and_endings() {
    let src = b"class A\r\n{\r\n    int x;\r\n\r\n\r\n    int y;\r\n}";
    match process_source(src) {
        SourceOutcome::Fixed(out) => {
            assert_ne!(out, src.to_vec());
            let before = split_lines(src);
            let after = split_lines(&out);
            assert_eq!(before.len(), after.len());
            for (b, a) in before.iter().zip(after.iter()) {
                assert_eq!(&src[b.content_end..b.full_end], &out[a.content_end..a.full_end]);
            }
            assert_eq!(out, b"class A\r\n{\r\n    int x;\r\n    \r\n    \r\n    int y;\r\n}".to_vec());
        }
        other => panic!("unexpected outcome {:?}", other),
    }
}

#[test]
fn byte_order_mark_is_measured() {
    assert_eq!(bom_len(b"\xEF\xBB\xBFclass"), 3);
    assert_eq!(bom_len(b"\xEF\xBB"), 0);
    assert_eq!(bom_len(b"class"), 0);
}

#[test]
fn cs_extension_in_any_case() {
    assert!(is_cs_extension(Some("cs")));
    assert!(is_cs_extension(Some("CS")));
    assert!(is_cs_extension(Some("cS")));
    assert!(!is_cs_extension(Some("csx")));
    assert!(!is_cs_extension(Some("c")));
    assert!(!is_cs_extension(Some("")));
    assert!(!is_cs_extension(None));
}

#[test]
fn hook_input_names_the_edited_file() {
    assert_eq!(
        hook_file_path(r#"{"tool_name":"Edit","tool_input":{"file_path":"/tmp/a.cs"}}"#),
        Some("/tmp/a.cs".to_string())
    );
    assert_eq!(hook_file_path(r#"{"tool_name":"Edit"}"#), None);
    assert_eq!(hook_file_path(r#"{"tool_input":{"file_path":3}}"#), None);
    assert_eq!(hook_file_path(r#"{"tool_input":"x"}"#), None);
    assert_eq!(hook_file_path("not json"), None);
    assert_eq!(hook_file_path(""), None);
}

#[test]
fn a_second_run_changes_nothing() {
    let sources: [&[u8]; 4] = [
        b"class A\n{\n    int x;\n\n    int y;\n\n    void F()\n    {\n        int a;\n\n    }\n}\n",
        b"class A\r\n{\r\n\tint x;\r\n\r\n\tint y;\r\n}",
        b"namespace N\n{\n    class A { }\n\n\n    class B { }\n}\n",
        b"class B\n{\n    string s = @\"a\n\nb\";\n\n    int y;\n}\n",
    ];
    for src in sources {
        let once = match process_source(src) {
            SourceOutcome::Fixed(out) => out,
            other => panic!("unexpected outcome {:?}", other),
        };
        assert!(
            matches!(process_source(&once), SourceOutcome::NoChange),
            "second run changed {:?}",
            String::from_utf8_lossy(&once)
        );
    }
}
