use codeflow::geometry::Shape;
use codeflow::graph::Exit;
use codeflow::octave_flow::{
    add_node, assign_levels, build_graph, connect, default_output_path, extract_assigned_vars, has_word, lex, norm,
    octave_flow_graph, parse_block, parse_if, parse_loop, parse_switch, pretty_cond, simplify_block, starts_kw,
    strip_comment, summarize_process_lines, walk_block, AstNode, IfBranch, Tok, TokKind,
};
use codeflow::octave_flow::{add_names, names_from_matches, pretty_from_captures, summary_from};

fn strings(v: &[&str]) -> Vec<String> {
    v.iter().map(|s| s.to_string()).collect()
}

fn proc_text(a: &AstNode) -> &str {
    match a {
        AstNode::Process { text, .. } => text.as_str(),
        other => panic!("not a process node: {:?}", other),
    }
}

#[test]
fn comments_outside_quotes_are_cut() {
    assert_eq!(strip_comment("x = 1 % c"), "x = 1 ");
    assert_eq!(strip_comment("s = 'a%b' % c"), "s = 'a%b' ");
    assert_eq!(strip_comment("s = 'it''s' % c"), "s = 'it''s' ");
    assert_eq!(strip_comment("% all"), "");
    assert_eq!(strip_comment("plain"), "plain");
}

#[test]
fn whitespace_and_conditions() {
    assert_eq!(norm("  a   b "), "a b");
    assert_eq!(pretty_cond("strcmp(Test, 'abc')"), "Test == abc");
    assert_eq!(pretty_cond("strcmp( mode ,'x y' )"), "mode == x y");
    assert_eq!(pretty_cond("x  >  1"), "x > 1");
    assert_eq!(pretty_cond("strcmp(a, b)"), "strcmp(a, b)");
}

#[test]
fn keyword_prefixes() {
    assert_eq!(starts_kw("IF x > 1", "if"), Some("x > 1".to_string()));
    assert_eq!(starts_kw("end", "end"), Some(String::new()));
    assert_eq!(starts_kw("endfor", "end"), None);
    assert_eq!(starts_kw("ending x", "end"), None);
    assert_eq!(starts_kw("Else   ", "else"), Some(String::new()));
}

#[test]
fn lexing_lines() {
    let toks = lex(&strings(&["x = 1; % set", "if strcmp(Test, 'a')", "  y   = 2", "", "end"]));
    let got: Vec<(TokKind, &str, usize)> = toks.iter().map(|t| (t.kind, t.text.as_str(), t.line)).collect();
    assert_eq!(
        got,
        vec![(TokKind::Stmt, "x = 1;", 1), (TokKind::If, "Test == a", 2), (TokKind::Stmt, "y = 2", 3), (TokKind::End, "", 5)]
    );
}

#[test]
fn assigned_names() {
    assert_eq!(extract_assigned_vars(&strings(&["a = 1; b == 2", "c=3, a = 4"])), strings(&["a", "c"]));
    assert_eq!(extract_assigned_vars(&strings(&["disp(x)"])), Vec::<String>::new());
}

#[test]
fn words_by_pattern() {
    assert!(has_word(&strings(&["plot(x)"]), "(?i)\\b(figure|plot)\\b"));
    assert!(has_word(&strings(&["a", "PLOT(x)"]), "(?i)\\b(figure|plot)\\b"));
    assert!(!has_word(&strings(&["plotx = 1"]), "(?i)\\b(figure|plot)\\b"));
}

#[test]
fn process_summaries() {
    let mut seen: Vec<String> = vec![];
    assert_eq!(summarize_process_lines(&strings(&["figure(1)", "x = 2"]), &mut seen), "Plots/figure settings updated");
    assert!(seen.is_empty());
    assert_eq!(summarize_process_lines(&strings(&["disp('hi')"]), &mut seen), "Messages/validation handled");
    assert_eq!(summarize_process_lines(&strings(&["a = 1", "b = sqrt(a)"]), &mut seen), "Computed values set: a, b");
    assert_eq!(seen, strings(&["a", "b"]));
    assert_eq!(summarize_process_lines(&strings(&["a = 1"]), &mut seen), "Values updated: a");
    assert_eq!(summarize_process_lines(&strings(&["a = 1", "c = 2"]), &mut seen), "Values set & updated: a, c");
    assert_eq!(seen, strings(&["a", "b", "c"]));
    assert_eq!(summarize_process_lines(&strings(&["g = 9.81", "L_base = 2"]), &mut seen), "Constants set: g, L_base");
    assert_eq!(summarize_process_lines(&strings(&["tzero = 0", "v = 2"]), &mut seen), "Values/constants set: tzero, v");
    assert_eq!(summarize_process_lines(&strings(&["foo()"]), &mut seen), "Processing step");
    let many: Vec<String> = (1..=9).map(|i| format!("v{} = {}", i, i)).collect();
    let mut fresh: Vec<String> = vec![];
    assert_eq!(summarize_process_lines(&many, &mut fresh), "Values set: v1, v2, v3, v4, v5, v6, v7, v8, ... (+1)");
    assert_eq!(fresh.len(), 9);
}

#[test]
fn parsing_if_else() {
    let toks = lex(&strings(&["x = 1", "if a > 0", "y = 2", "else", "y = 3", "end"]));
    let mut seen: Vec<String> = vec![];
    let (ast, i) = parse_block(&toks, 0, &[], &mut seen);
    assert_eq!(i, 6);
    assert_eq!(ast.len(), 2);
    assert_eq!(proc_text(&ast[0]), "Values set: x");
    match &ast[1] {
        AstNode::If { cond, line_start, line_end, branches, else_body } => {
            assert_eq!((cond.as_str(), *line_start, *line_end), ("a > 0", 2, 6));
            assert_eq!(branches.len(), 1);
            assert_eq!(proc_text(&branches[0].body[0]), "Values set: y");
            assert_eq!(proc_text(&else_body.as_ref().unwrap()[0]), "Values updated: y");
        },
        other => panic!("unexpected {:?}", other),
    }
    assert_eq!(seen, strings(&["x", "y"]));
    let mut seen2: Vec<String> = vec![];
    let (node, j) = parse_if(&toks, 1, &mut seen2);
    assert!(matches!(node, AstNode::If { .. }));
    assert_eq!(j, 6);
    let (stop_ast, k) = parse_block(&toks, 2, &[TokKind::Else], &mut seen2);
    assert_eq!((stop_ast.len(), k), (1, 3));
}

#[test]
fn parsing_loops_and_switches() {
    let toks = lex(&strings(&["for i = 1:3", "s = s + i", "end"]));
    let mut seen: Vec<String> = vec![];
    let (node, j) = parse_loop(&toks, 0, &mut seen);
    assert_eq!(j, 3);
    match &node {
        AstNode::Loop { loop_kind, header, line_start, line_end, body } => {
            assert_eq!((*loop_kind, header.as_str(), *line_start, *line_end), (TokKind::For, "i = 1:3", 1, 3));
            assert_eq!(proc_text(&body[0]), "Values set: s");
        },
        other => panic!("unexpected {:?}", other),
    }
    let toks = lex(&strings(&["switch mode", "case 'a'", "x = 1", "otherwise", "x = 2", "end"]));
    let mut seen: Vec<String> = vec![];
    let (node, j) = parse_switch(&toks, 0, &mut seen);
    assert_eq!(j, 6);
    match &node {
        AstNode::Switch { expr, line_start, line_end, cases, otherwise } => {
            assert_eq!((expr.as_str(), *line_start, *line_end), ("mode", 1, 6));
            assert_eq!((cases[0].cond.as_str(), cases[0].line), ("'a'", 2));
            assert_eq!(proc_text(&cases[0].body[0]), "Values set: x");
            assert_eq!(proc_text(&otherwise.as_ref().unwrap()[0]), "Values updated: x");
        },
        other => panic!("unexpected {:?}", other),
    }
}

#[test]
fn unterminated_if_ends_at_last_branch() {
    let toks = lex(&strings(&["if a", "x = 1", "elseif b", "y = 1"]));
    let mut seen: Vec<String> = vec![];
    let (node, j) = parse_if(&toks, 0, &mut seen);
    assert_eq!(j, 4);
    match node {
        AstNode::If { line_end, branches, else_body, .. } => {
            assert_eq!(line_end, 3);
            assert_eq!(branches.len(), 2);
            assert!(else_body.is_none());
        },
        other => panic!("unexpected {:?}", other),
    }
}

#[test]
fn test_case_selection_is_simplified() {
    let br = |c: &str, l: usize| IfBranch { cond: c.to_string(), body: vec![], line: l };
    let early = AstNode::If { cond: "Test == a".to_string(), line_start: 5, line_end: 9, branches: vec![br("Test == a", 5)], else_body: None };
    let out = simplify_block(&[early]);
    assert_eq!(out.len(), 2);
    assert!(matches!(&out[0], AstNode::Decision { text, .. } if text == "Select Test case?"));
    assert_eq!(proc_text(&out[1]), "Values set: Test, value (Default/theta0/thetadot0/spring_stiff/length/zeta/mass); else error");
    let late = AstNode::If {
        cond: "strcmp(Test, x)".to_string(), line_start: 70, line_end: 90,
        branches: vec![br("a", 70), br("b", 75), br("c", 80)], else_body: None,
    };
    let out = simplify_block(&[late]);
    assert_eq!(proc_text(&out[0]), "Values updated: theta0, thetadot0, L, m, k1, k2, k3, legend_label, graphtitle");
    let late_two = AstNode::If { cond: "Test == x".to_string(), line_start: 70, line_end: 90, branches: vec![br("a", 70)], else_body: None };
    assert!(matches!(&simplify_block(&[late_two])[0], AstNode::If { .. }));
}

#[test]
fn nodes_and_edges_by_hand() {
    let mut nodes = vec![];
    let mut next_id = 1usize;
    let a = add_node(&mut nodes, &mut next_id, Shape::Process, "a".to_string(), Some(1), Some(1), 0);
    let b = add_node(&mut nodes, &mut next_id, Shape::Decision, "b".to_string(), None, None, 2);
    assert_eq!((a, b, next_id), (1, 2, 3));
    let mut edges = vec![];
    connect(&mut edges, &[Exit { node_id: a, label: None }, Exit { node_id: b, label: Some("no".to_string()) }], 2, Some("x"));
    let got: Vec<(usize, usize, Option<&str>)> = edges.iter().map(|e| (e.from, e.to, e.label.as_deref())).collect();
    assert_eq!(got, vec![(1, 2, Some("x")), (2, 2, Some("no"))]);
}

#[test]
fn walking_a_switch() {
    let toks = lex(&strings(&["switch m", "case 1", "x = 1", "case 2", "x = 2", "case 3", "end"]));
    let mut seen: Vec<String> = vec![];
    let (ast, _) = parse_block(&toks, 0, &[], &mut seen);
    let mut nodes = vec![];
    let mut edges = vec![];
    let mut next_id = 1usize;
    let exits = walk_block(&ast, vec![], 0, &mut nodes, &mut edges, &mut next_id);
    let texts: Vec<&str> = nodes.iter().map(|n| n.text.as_str()).collect();
    assert_eq!(texts, vec!["switch m", "Values set: x", "Values updated: x"]);
    let lanes: Vec<i32> = nodes.iter().map(|n| n.lane).collect();
    assert_eq!(lanes, vec![0, -1, 0]);
    let ex: Vec<(usize, Option<&str>)> = exits.iter().map(|e| (e.node_id, e.label.as_deref())).collect();
    assert_eq!(ex, vec![(2, None), (3, None), (1, Some("case 3"))]);
}

#[test]
fn graph_of_a_small_script() {
    let g = octave_flow_graph("x = 1\nif x > 0\n  y = 2\nend\n").unwrap();
    let texts: Vec<&str> = g.nodes.iter().map(|n| n.text.as_str()).collect();
    assert_eq!(texts, vec!["Start", "Values set: x", "if x > 0", "Values set: y", "End"]);
    let edges: Vec<(usize, usize, Option<&str>)> = g.edges.iter().map(|e| (e.from, e.to, e.label.as_deref())).collect();
    assert_eq!(edges, vec![(1, 2, None), (2, 3, None), (3, 4, Some("yes")), (4, 5, None), (3, 5, Some("no"))]);
    let levels: Vec<Option<i32>> = g.nodes.iter().map(|n| n.level).collect();
    assert_eq!(levels, vec![Some(0), Some(1), Some(2), Some(3), Some(5)]);
    assert_eq!((g.start, g.end), (1, 5));
    assert!(g.edges.iter().all(|e| !e.back_edge));
}

#[test]
fn build_then_level() {
    let toks = lex(&strings(&["while k < 3", "k = k + 1", "end"]));
    let mut seen: Vec<String> = vec![];
    let (ast, _) = parse_block(&toks, 0, &[], &mut seen);
    let (mut nodes, mut edges, start, end) = build_graph(&ast);
    assert_eq!((start, end), (1, 4));
    let texts: Vec<&str> = nodes.iter().map(|n| n.text.as_str()).collect();
    assert_eq!(texts, vec!["Start", "while k < 3", "Values set: k", "End"]);
    assign_levels(&mut nodes, &mut edges, start, end);
    let labels: Vec<(usize, usize, Option<&str>, bool)> =
        edges.iter().map(|e| (e.from, e.to, e.label.as_deref(), e.back_edge)).collect();
    assert_eq!(
        labels,
        vec![(1, 2, None, false), (2, 3, Some("enter"), false), (3, 2, Some("next"), true), (2, 4, Some("done"), false)]
    );
    assert!(nodes[3].level.unwrap() > nodes[2].level.unwrap());
}

#[test]
fn default_graph_path() {
    assert_eq!(default_output_path("a/b.m"), "a/b.m.graph.json");
}

#[test]
fn octave_long_source_is_levelled() {
    let src = "for i = 1:2\nend\n".repeat(1_000);
    let g = octave_flow_graph(&src).unwrap();
    let end_level = g.nodes[g.end - 1].level.unwrap();
    assert!(g.nodes.iter().filter(|n| n.id != g.end).all(|n| n.level.unwrap() < end_level));
}

#[test]
fn tokens_are_plain_data() {
    let t = Tok { kind: TokKind::Case, text: "1".to_string(), line: 3 };
    assert_eq!((t.kind, t.line), (TokKind::Case, 3));
}

#[test]
fn blocks_without_test_selection_are_kept() {
    let p = || AstNode::Process { text: "x = 1".to_string(), line_start: 1, line_end: 1 };
    let br = IfBranch { cond: "x > 0".to_string(), body: vec![p()], line: 2 };
    let i = AstNode::If { cond: "x > 0".to_string(), line_start: 2, line_end: 4, branches: vec![br], else_body: Some(vec![p()]) };
    let out = simplify_block(&[p(), i]);
    assert_eq!(out.len(), 2);
    assert_eq!(proc_text(&out[0]), "x = 1");
    match &out[1] {
        AstNode::If { cond, branches, else_body, .. } => {
            assert_eq!(cond, "x > 0");
            assert_eq!(branches.len(), 1);
            assert_eq!(proc_text(&branches[0].body[0]), "x = 1");
            assert_eq!(else_body.as_ref().unwrap().len(), 1);
        },
        other => panic!("unexpected {:?}", other),
    }
}

#[test]
fn logic_after_the_regex_calls() {
    let caps = Some(Some(vec![Some("strcmp(Test, 'a')".to_string()), Some("Test".to_string()), Some("a".to_string())]));
    assert_eq!(pretty_from_captures("strcmp(Test, 'a')".to_string(), caps), "Test == a");
    assert_eq!(pretty_from_captures("x > 1".to_string(), Some(None)), "x > 1");
    let ms = vec![("x".to_string(), " 1;".to_string()), ("y".to_string(), "= 2".to_string()), ("z".to_string(), "3".to_string())];
    assert_eq!(names_from_matches(&ms), strings(&["x", "z"]));
    let mut out = strings(&["z"]);
    add_names(&mut out, &strings(&["x", "z", "x"]));
    assert_eq!(out, strings(&["z", "x"]));
    let mut seen = strings(&["a"]);
    assert_eq!(summary_from(&strings(&["a", "b"]), false, false, false, &mut seen), "Values set & updated: a, b");
    assert_eq!(seen, strings(&["a", "b"]));
    let mut seen2: Vec<String> = vec![];
    assert_eq!(summary_from(&strings(&["a"]), true, false, false, &mut seen2), "Plots/figure settings updated");
    assert!(seen2.is_empty());
    assert_eq!(summary_from(&vec![], false, true, false, &mut seen2), "Messages/validation handled");
    assert_eq!(summary_from(&strings(&["g"]), false, false, true, &mut seen2), "Computed values set: g");
}
