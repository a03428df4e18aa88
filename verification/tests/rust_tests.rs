use codeflow::geometry::Shape;
use codeflow::graph::{Edge, ExtractError, Node};
use codeflow::rust_flow::{
    assign_levels, compact_ast, extract_function_slice, parse_block, parse_if, parse_match, rust_flow_graph, strip_comments,
    summarize_stmt, tokenize, AstNode, Branch, Tok, TokKind,
};

fn code(t: &Tok) -> Option<&str> {
    match &t.kind {
        TokKind::Code(s) => Some(s.as_str()),
        _ => None,
    }
}

fn proc_text(a: &AstNode) -> &str {
    match a {
        AstNode::Process { text, .. } => text.as_str(),
        _ => panic!("not a process node"),
    }
}

#[test]
fn comments_are_removed() {
    let src = "let a = 1; // hi\nlet b = \"//x\"; /* c\n d */ e";
    assert_eq!(strip_comments(src), "let a = 1; \nlet b = \"//x\"; \n e");
    assert_eq!(strip_comments("a /* x /* y */ z */ b"), "a  b");
    assert_eq!(strip_comments("'\\\\' // c"), "'\\\\' ");
}

#[test]
fn tokens_split_at_braces_and_semicolons() {
    let toks = tokenize("fn f() {\n  let x = 1;\n}");
    assert_eq!(toks.len(), 4);
    assert_eq!((code(&toks[0]), toks[0].line), (Some("fn f()"), 1));
    assert!(matches!(toks[1].kind, TokKind::LBrace));
    assert_eq!((code(&toks[2]), toks[2].line), (Some("let x = 1"), 2));
    assert!(matches!(toks[3].kind, TokKind::RBrace));
    assert_eq!(toks[3].line, 3);
    let quoted = tokenize("let s = \"{;}\";");
    assert_eq!(quoted.len(), 1);
    assert_eq!(code(&quoted[0]), Some("let s = \"{;}\""));
}

#[test]
fn statement_summaries() {
    assert_eq!(summarize_stmt("return x"), "Return");
    assert_eq!(summarize_stmt("break"), "break");
    assert_eq!(summarize_stmt("let mut x: i32 = 5"), "Assign: x");
    assert_eq!(summarize_stmt("x += 1"), "Update: x +");
    assert_eq!(summarize_stmt("fn foo(a: i32)   -> i32"), "fn foo(a: i32) -> i32");
    assert_eq!(summarize_stmt("println!(\"hi\")"), "Expr: println!(\"hi\")");
}

#[test]
fn function_slices() {
    let src = "fn a() {}\nfn b() {\n x();\n}\nfn c() {}\n";
    assert_eq!(extract_function_slice(src, "b").unwrap(), "fn b() {\n x();\n}\n");
    match extract_function_slice(src, "z") {
        Err(ExtractError::FunctionNotFound(n)) => assert_eq!(n, "z"),
        other => panic!("unexpected {:?}", other),
    }
    match extract_function_slice("fn d();\n", "d") {
        Err(ExtractError::FunctionBodyNotFound(n)) => assert_eq!(n, "d"),
        other => panic!("unexpected {:?}", other),
    }
}

#[test]
fn parse_if_else() {
    let toks = tokenize("if a {\n b();\n} else {\n c();\n}");
    let mut i = 0usize;
    let ast = parse_block(&toks, &mut i, false);
    assert_eq!(i, toks.len());
    assert_eq!(ast.len(), 1);
    match &ast[0] {
        AstNode::Decision { text, branches, default_branch, .. } => {
            assert_eq!(text, "if a");
            assert_eq!(branches.len(), 1);
            assert_eq!(branches[0].label, "yes");
            assert_eq!(proc_text(&branches[0].body[0]), "Expr: b()");
            let d = default_branch.as_ref().unwrap();
            assert_eq!(proc_text(&d[0]), "Expr: c()");
        },
        other => panic!("unexpected {:?}", other),
    }
    let mut j = 1usize;
    let node = parse_if(&toks[0], &toks, &mut j);
    assert!(matches!(node, AstNode::Decision { .. }));
    assert_eq!(j, toks.len());
}

#[test]
fn parse_match_arms() {
    let toks = tokenize("match v {\n 1 => a(),\n _ => { b(); }\n}");
    let mut i = 1usize;
    let node = parse_match(&toks[0], &toks, &mut i);
    match node {
        AstNode::Decision { text, branches, default_branch, .. } => {
            assert_eq!(text, "match v");
            assert_eq!(branches.len(), 1);
            assert_eq!(branches[0].label, "case 1");
            assert_eq!(proc_text(&branches[0].body[0]), "Expr: a()");
            assert_eq!(proc_text(&default_branch.unwrap()[0]), "Expr: b()");
        },
        other => panic!("unexpected {:?}", other),
    }
    assert_eq!(i, toks.len());
}

#[test]
fn compaction_groups_statements() {
    let p = |t: &str, l: usize| AstNode::Process { text: t.to_string(), line_start: l, line_end: l };
    let out = compact_ast(vec![p("a", 1), p("b", 2), p("c", 3)], 2);
    assert_eq!(out.len(), 2);
    assert_eq!(proc_text(&out[0]), "a | b");
    assert_eq!(proc_text(&out[1]), "c");
    match &out[0] {
        AstNode::Process { line_start, line_end, .. } => assert_eq!((*line_start, *line_end), (1, 2)),
        _ => unreachable!(),
    }
    let nested = vec![AstNode::Loop { header: "loop".to_string(), line_start: 1, line_end: 1, body: vec![p("x", 2), p("y", 3)] }];
    match &compact_ast(nested, 5)[0] {
        AstNode::Loop { body, .. } => assert_eq!(proc_text(&body[0]), "x | y"),
        _ => unreachable!(),
    }
    let b = Branch { label: "yes".to_string(), body: vec![] };
    assert_eq!(b.label, "yes");
}

#[test]
fn rust_graph_of_main() {
    let g = rust_flow_graph("fn main() {\n let x = 1;\n}\n", "main", false, 5).unwrap();
    let texts: Vec<&str> = g.nodes.iter().map(|n| n.text.as_str()).collect();
    assert_eq!(texts, vec!["Start", "fn main()", "Assign: x", "End"]);
    let edges: Vec<(usize, usize, Option<&str>)> = g.edges.iter().map(|e| (e.from, e.to, e.label.as_deref())).collect();
    assert_eq!(edges, vec![(1, 2, None), (2, 3, Some("enter")), (3, 4, None)]);
    let levels: Vec<Option<i32>> = g.nodes.iter().map(|n| n.level).collect();
    assert_eq!(levels, vec![Some(0), Some(1), Some(2), Some(4)]);
    assert_eq!(g.nodes[2].lane, 1);
}

#[test]
fn rust_missing_function() {
    match rust_flow_graph("fn main() {}\n", "nope", false, 5) {
        Err(ExtractError::FunctionNotFound(n)) => assert_eq!(n, "nope"),
        other => panic!("unexpected {:?}", other),
    }
}

#[test]
fn compaction_by_one_keeps_every_statement() {
    let p = |t: &str, l: usize| AstNode::Process { text: t.to_string(), line_start: l, line_end: l };
    let nested = || vec![
        p("a", 1),
        AstNode::Loop { header: "loop".to_string(), line_start: 2, line_end: 2, body: vec![p("x", 3), p("y", 4)] },
        p("b", 5),
    ];
    for g in [0usize, 1] {
        let out = compact_ast(nested(), g);
        assert_eq!(out.len(), 3);
        assert_eq!(proc_text(&out[0]), "a");
        assert_eq!(proc_text(&out[2]), "b");
        match &out[1] {
            AstNode::Loop { body, .. } => {
                assert_eq!(body.len(), 2);
                assert_eq!(proc_text(&body[0]), "x");
                assert_eq!(proc_text(&body[1]), "y");
            },
            _ => unreachable!(),
        }
    }
}

fn level_node(id: usize, line: Option<usize>) -> Node {
    Node { id, shape: Shape::Process, text: format!("n{}", id), line_start: line, line_end: line, lane: 0, level: None }
}

fn plain_edge(from: usize, to: usize) -> Edge {
    Edge { from, to, label: None, back_edge: false }
}

#[test]
fn levels_relax_around_a_cycle() {
    let mut nodes = vec![level_node(1, Some(1)), level_node(2, Some(2)), level_node(3, Some(3)), level_node(4, None)];
    let mut edges = vec![plain_edge(1, 2), plain_edge(2, 3), plain_edge(3, 2), plain_edge(3, 4)];
    assign_levels(&mut nodes, &mut edges, 1, 4);
    let levels: Vec<Option<i32>> = nodes.iter().map(|n| n.level).collect();
    assert_eq!(levels, vec![Some(0), Some(34), Some(33), Some(35)]);
    let back: Vec<bool> = edges.iter().map(|e| e.back_edge).collect();
    assert_eq!(back, vec![false, true, false, false]);
}
