use codeflow::geometry::Shape;
use codeflow::graph::{Exit, ExtractError};
use codeflow::python_flow::{
    body_start_indent, build_logical_lines, extract_target_lines, find_next_code, has_top_level_assignment,
    is_groupable_process, leading_indent, normalize_double_to_single_quotes, normalize_expr_text,
    normalize_loop_header, paren_delta, parse_if_chain, python_flow_graph, split_top_level_commas, starts_with_kw,
    stmt_text_from_line, strip_inline_comment, summarize_group, walk_block, GraphBuilder, LineInfo,
};

fn li(lineno: usize, indent: usize, code: &str) -> LineInfo {
    LineInfo { lineno, line_end: lineno, indent, code: code.to_string() }
}

#[test]
fn inline_comments_are_stripped() {
    assert_eq!(strip_inline_comment("x = 1  # c"), "x = 1");
    assert_eq!(strip_inline_comment("s = '#'  # c"), "s = '#'");
    assert_eq!(strip_inline_comment("s = \"a#b\""), "s = \"a#b\"");
    assert_eq!(strip_inline_comment("# only"), "");
}

#[test]
fn indentation_counts_tabs_as_four() {
    assert_eq!(leading_indent("  \tx"), 6);
    assert_eq!(leading_indent("x"), 0);
}

#[test]
fn bracket_depth() {
    assert_eq!(paren_delta("f(a, [b]"), 1);
    assert_eq!(paren_delta("s = ')'"), 0);
    assert_eq!(paren_delta("\\(x"), 0);
    assert_eq!(paren_delta("])"), -2);
}

#[test]
fn keyword_starts() {
    assert!(starts_with_kw("if x:", "if"));
    assert!(!starts_with_kw("iffy = 1", "if"));
    assert!(starts_with_kw("if:", "if"));
    assert!(starts_with_kw("if", "if"));
    assert!(is_groupable_process("x = 1"));
    assert!(!is_groupable_process("return x"));
    assert!(!is_groupable_process("else:"));
    assert!(!is_groupable_process("break"));
}

#[test]
fn statement_labels() {
    assert_eq!(stmt_text_from_line("return x"), "Return");
    assert_eq!(stmt_text_from_line("raise E"), "Raise");
    assert_eq!(stmt_text_from_line("import os, sys"), "Import: os, sys");
    assert_eq!(stmt_text_from_line("from a import b"), "From a import b");
    assert_eq!(stmt_text_from_line("def f(x):"), "def f(x)");
    assert_eq!(stmt_text_from_line("with open(f) as g:"), "with ...");
    assert_eq!(stmt_text_from_line("x += 1"), "Update: x +");
    assert_eq!(stmt_text_from_line("a, b = 1, 2"), "Assign: a, b");
    assert_eq!(stmt_text_from_line("x: int = 3"), "Assign: x");
    assert_eq!(stmt_text_from_line("print(\"hi\")"), "Expr: print('hi')");
}

#[test]
fn commas_at_top_level() {
    assert_eq!(split_top_level_commas("a, f(b, c), d"), vec!["a", "f(b, c)", "d"]);
    assert_eq!(split_top_level_commas(""), vec![""]);
    assert_eq!(split_top_level_commas("'x,y', z"), vec!["'x,y'", "z"]);
}

#[test]
fn assignments_at_top_level() {
    assert!(has_top_level_assignment("x = 1"));
    assert!(!has_top_level_assignment("x == 1"));
    assert!(!has_top_level_assignment("f(a=1)"));
    assert!(!has_top_level_assignment("x <= 1"));
    assert!(has_top_level_assignment("s = 'a=b'"));
    assert!(!has_top_level_assignment("'a=b'"));
}

#[test]
fn loop_headers_and_expressions() {
    assert_eq!(normalize_loop_header("for a, b in items:"), "for (a, b) in items");
    assert_eq!(normalize_loop_header("for x in range(3):"), "for x in range(3)");
    assert_eq!(normalize_loop_header("while x:"), "while x");
    assert_eq!(normalize_expr_text("print( a , b )"), "print(a, b)");
    assert_eq!(normalize_expr_text("f(a,)"), "f(a)");
    assert_eq!(normalize_double_to_single_quotes("x = \"hi\""), "x = 'hi'");
    assert_eq!(normalize_double_to_single_quotes("\"it's\""), "\"it's\"");
    assert_eq!(normalize_double_to_single_quotes("\"open"), "\"open");
}

#[test]
fn group_summaries() {
    assert_eq!(summarize_group(&[li(1, 0, "x = 1"), li(2, 0, "y = 2")]), "Assign: x | Assign: y");
    assert_eq!(summarize_group(&[li(1, 0, "return x")]), "Return");
    let six: Vec<LineInfo> = (1..=6).map(|i| li(i, 0, &format!("v{} = {}", i, i))).collect();
    assert_eq!(summarize_group(&six), "Assign: v1 | Assign: v2 | Assign: v3 | Assign: v4 | ... +2 more");
}

#[test]
fn next_code_and_body_indent() {
    let lines = vec![li(1, 0, "if a:"), li(2, 4, "b = 1"), li(3, 0, "c = 2")];
    assert_eq!(find_next_code(&lines, 0), Some(0));
    assert_eq!(find_next_code(&lines, 3), None);
    assert_eq!(body_start_indent(&lines, 0, 0), Some((1, 4)));
    assert_eq!(body_start_indent(&lines, 1, 4), None);
    assert_eq!(body_start_indent(&lines, 2, 0), None);
}

#[test]
fn logical_lines_join_continuations() {
    let phys = vec![(1, "x = (1,".to_string()), (2, "  2)".to_string()), (3, "y = 3  # c".to_string()), (4, "   ".to_string())];
    let out = build_logical_lines(&phys);
    assert_eq!(out.len(), 2);
    assert_eq!((out[0].lineno, out[0].line_end, out[0].indent, out[0].code.as_str()), (1, 2, 0, "x = (1, 2)"));
    assert_eq!((out[1].lineno, out[1].line_end, out[1].indent, out[1].code.as_str()), (3, 3, 0, "y = 3"));
}

#[test]
fn target_lines_of_a_function() {
    let src = "def f(x):\n    return x\ny = 1\n";
    let lines = extract_target_lines(src, Some("f")).unwrap();
    assert_eq!(lines.len(), 1);
    assert_eq!((lines[0].lineno, lines[0].indent, lines[0].code.as_str()), (2, 4, "return x"));
    let all = extract_target_lines(src, None).unwrap();
    assert_eq!(all.len(), 3);
    match extract_target_lines(src, Some("g")) {
        Err(ExtractError::FunctionNotFound(n)) => assert_eq!(n, "g"),
        other => panic!("unexpected {:?}", other),
    }
}

#[test]
fn builder_adds_and_connects() {
    let mut gb = GraphBuilder::new();
    let a = gb.add_node(Shape::Process, "a".to_string(), Some(1), None, 0);
    let b = gb.add_node(Shape::Process, "b".to_string(), Some(2), Some(3), 0);
    assert_eq!((a, b), (1, 2));
    assert_eq!(gb.nodes[0].line_end, Some(1));
    gb.connect(&[Exit { node_id: a, label: None }], b, Some("yes"));
    assert_eq!(gb.edges.len(), 1);
    assert_eq!((gb.edges[0].from, gb.edges[0].to, gb.edges[0].label.as_deref()), (1, 2, Some("yes")));
}

#[test]
fn walk_groups_plain_statements() {
    let lines = vec![li(1, 0, "x = 1"), li(2, 0, "return x")];
    let mut gb = GraphBuilder::new();
    let (exits, idx) = walk_block(&mut gb, &lines, 0, 0, vec![], 0, true, 5);
    assert_eq!(idx, 2);
    let texts: Vec<&str> = gb.nodes.iter().map(|n| n.text.as_str()).collect();
    assert_eq!(texts, vec!["Assign: x", "Return"]);
    assert_eq!(exits.len(), 1);
    assert_eq!(exits[0].node_id, 2);
}

#[test]
fn if_chain_exits() {
    let lines = vec![li(1, 0, "if a:"), li(2, 4, "b = 1")];
    let mut gb = GraphBuilder::new();
    let (exits, idx) = parse_if_chain(&mut gb, &lines, 0, 0, vec![], 0, true, 5);
    assert_eq!(idx, 2);
    assert_eq!(gb.nodes[0].text, "if a");
    assert_eq!(gb.nodes[1].lane, -1);
    let ex: Vec<(usize, Option<&str>)> = exits.iter().map(|e| (e.node_id, e.label.as_deref())).collect();
    assert_eq!(ex, vec![(2, None), (1, Some("no"))]);
}

#[test]
fn python_graph_of_two_assignments() {
    let g = python_flow_graph("x = 1\ny = 2\n", "", false, 5).unwrap();
    let texts: Vec<&str> = g.nodes.iter().map(|n| n.text.as_str()).collect();
    assert_eq!(texts, vec!["Start", "Assign: x | Assign: y", "End"]);
    let edges: Vec<(usize, usize)> = g.edges.iter().map(|e| (e.from, e.to)).collect();
    assert_eq!(edges, vec![(1, 2), (2, 3)]);
    let levels: Vec<Option<i32>> = g.nodes.iter().map(|n| n.level).collect();
    assert_eq!(levels, vec![Some(0), Some(1), Some(3)]);
    assert_eq!((g.start, g.end), (1, 3));
}

#[test]
fn python_graph_of_if_else() {
    let g = python_flow_graph("if x:\n    y = 1\nelse:\n    y = 2\n", "", false, 5).unwrap();
    let texts: Vec<&str> = g.nodes.iter().map(|n| n.text.as_str()).collect();
    assert_eq!(texts, vec!["Start", "if x", "Assign: y", "Assign: y", "End"]);
    let lanes: Vec<i32> = g.nodes.iter().map(|n| n.lane).collect();
    assert_eq!(lanes, vec![0, 0, -1, 1, 0]);
    let edges: Vec<(usize, usize, Option<&str>)> = g.edges.iter().map(|e| (e.from, e.to, e.label.as_deref())).collect();
    assert_eq!(edges, vec![(1, 2, None), (2, 3, Some("yes")), (2, 4, Some("no")), (3, 5, None), (4, 5, None)]);
    let levels: Vec<Option<i32>> = g.nodes.iter().map(|n| n.level).collect();
    assert_eq!(levels, vec![Some(0), Some(1), Some(2), Some(3), Some(5)]);
    assert!(g.edges.iter().all(|e| !e.back_edge));
}

#[test]
fn python_graph_of_a_loop_marks_back_edge() {
    let g = python_flow_graph("for i in xs:\n    f(i)\n", "", false, 5).unwrap();
    let texts: Vec<&str> = g.nodes.iter().map(|n| n.text.as_str()).collect();
    assert_eq!(texts, vec!["Start", "for i in xs", "Expr: f(i)", "End"]);
    let next = g.edges.iter().find(|e| e.label.as_deref() == Some("next")).unwrap();
    assert!(next.back_edge);
    assert_eq!((next.from, next.to), (3, 2));
}

#[test]
fn python_missing_function() {
    match python_flow_graph("x = 1\n", "nope", false, 5) {
        Err(ExtractError::FunctionNotFound(n)) => assert_eq!(n, "nope"),
        other => panic!("unexpected {:?}", other),
    }
}

#[test]
fn python_long_source_is_levelled() {
    let src = "x = 1\n".repeat(3_000);
    let g = python_flow_graph(&src, "", true, 5).unwrap();
    assert_eq!(g.nodes.len(), 3_002);
    assert_eq!(g.nodes[1].level, Some(1));
    assert_eq!(g.nodes[3_000].level, Some(3_000));
    assert_eq!(g.nodes[g.end - 1].level, Some(3_002));
}
