//! The Rust source parser: strips comments, splits the source into
//! statements and braces, parses them into a small syntax tree, merges runs
//! of plain statements, and turns the tree into flowchart nodes and edges.
use vstd::prelude::*;
use crate::geometry::Shape;
use crate::graph::{
    Node, Edge, Exit, NodeView, EdgeView, nodes_view, edges_view, exits_view, graph_wf, exits_ok, opt_view,
    spec_connect_edges, connect_edges, push_node, clip_text, spec_clip_text, FlowGraph, ExtractError, finish_graph,
    levelled_nodes, levelled_edges, spec_final_levels, levels_fit, GState, ExitV, g_connect, next_edges,
    one_exit, bare_exit, exit_with, exit_bare, exit_owned, append_exits, lemma_exits_ok_mono, lemma_exits_ok_concat,
    assign_levels_bucketed, is_next, exits_among, lemma_among_concat, lemma_among_trans, lemma_next_edges_each,
    lemma_connect_has, lemma_append_keeps_edge, lemma_grows_keeps_edge, grows, lemma_grows_trans, lemma_grows_refl,
};
use crate::text::{
    chars_of, string_of, spec_trim, trim_vec, seq_starts_with, starts_with_vec, slice_vec, append_chars,
    split_lines, lines_of, seq_contains, contains_vec, spec_join, join_vecs, spec_before_char, before_char,
    strip_all_prefix, strip_all_prefix_vec, spec_norm_ws, norm_ws, spec_before_any, before_any, spec_trim_start,
    trim_start_vec, spec_trim_end_char, trim_end_char_vec, first_occurrence, find_vec, eq_vec,
};

verus! {

broadcast use vstd::string::group_string_axioms;

/// The source with `//` and (nested) `/* */` comments removed, from
/// position `i` in the given lexer state; line breaks inside comments are
/// kept.
pub open spec fn sc(s: Seq<char>, i: int, il: bool, ib: int, sq: bool, dq: bool) -> Seq<char>
    decreases s.len() + 1 - i,
{
    if i >= s.len() || i < 0 {
        Seq::empty()
    } else {
        let ch = s[i];
        let nx_star = i + 1 < s.len() && s[i + 1] == '*';
        let nx_slash = i + 1 < s.len() && s[i + 1] == '/';
        if il {
            if ch == '\n' { seq!['\n'] + sc(s, i + 1, false, ib, sq, dq) } else { sc(s, i + 1, true, ib, sq, dq) }
        } else if ib > 0 {
            if ch == '/' && nx_star {
                sc(s, i + 2, il, ib + 1, sq, dq)
            } else if ch == '*' && nx_slash {
                sc(s, i + 2, il, ib - 1, sq, dq)
            } else if ch == '\n' {
                seq!['\n'] + sc(s, i + 1, il, ib, sq, dq)
            } else {
                sc(s, i + 1, il, ib, sq, dq)
            }
        } else if !sq && !dq && ch == '/' && nx_slash {
            sc(s, i + 2, true, ib, sq, dq)
        } else if !sq && !dq && ch == '/' && nx_star {
            sc(s, i + 2, il, 1, sq, dq)
        } else if ch == '\\' && (sq || dq) && i + 1 < s.len() {
            seq![ch, s[i + 1]] + sc(s, i + 2, il, ib, sq, dq)
        } else if ch == '\\' && (sq || dq) {
            seq![ch, ch] + sc(s, i + 1, il, ib, sq, dq)
        } else if ch == '\'' && !dq {
            seq![ch] + sc(s, i + 1, il, ib, !sq, dq)
        } else if ch == '"' && !sq {
            seq![ch] + sc(s, i + 1, il, ib, sq, !dq)
        } else {
            seq![ch] + sc(s, i + 1, il, ib, sq, dq)
        }
    }
}

/// The number of line breaks in `s`.
pub open spec fn line_breaks(s: Seq<char>) -> int
    decreases s.len(),
{
    if s.len() == 0 { 0 } else { (if s[0] == '\n' { 1int } else { 0int }) + line_breaks(s.drop_first()) }
}

/// The number of line breaks in `s` from position `i`.
pub open spec fn line_breaks_from(s: Seq<char>, i: int) -> int
    decreases s.len() - i,
{
    if i < 0 || i >= s.len() { 0 } else { (if s[i] == '\n' { 1int } else { 0int }) + line_breaks_from(s, i + 1) }
}

proof fn lemma_breaks_cons(c: char, rest: Seq<char>)
    ensures line_breaks(seq![c] + rest) == (if c == '\n' { 1int } else { 0int }) + line_breaks(rest),
{
    assert((seq![c] + rest).drop_first() =~= rest);
}

/// Removing comments keeps every line break of the source.
pub proof fn lemma_sc_keeps_lines(s: Seq<char>, i: int, il: bool, ib: int, sq: bool, dq: bool)
    requires 0 <= i,
    ensures line_breaks(sc(s, i, il, ib, sq, dq)) == line_breaks_from(s, i),
    decreases s.len() + 1 - i,
{
    if i < s.len() {
        let ch = s[i];
        let nx_star = i + 1 < s.len() && s[i + 1] == '*';
        let nx_slash = i + 1 < s.len() && s[i + 1] == '/';
        if i + 1 < s.len() {
            assert(line_breaks_from(s, i + 1) == (if s[i + 1] == '\n' { 1int } else { 0int }) + line_breaks_from(s, i + 2));
        } else {
            assert(line_breaks_from(s, i + 1) == 0);
            assert(line_breaks_from(s, i + 2) == 0);
        }
        if il {
            lemma_sc_keeps_lines(s, i + 1, ch != '\n', ib, sq, dq);
            if ch == '\n' { lemma_breaks_cons('\n', sc(s, i + 1, false, ib, sq, dq)); }
        } else if ib > 0 {
            if ch == '/' && nx_star {
                lemma_sc_keeps_lines(s, i + 2, il, ib + 1, sq, dq);
            } else if ch == '*' && nx_slash {
                lemma_sc_keeps_lines(s, i + 2, il, ib - 1, sq, dq);
            } else {
                lemma_sc_keeps_lines(s, i + 1, il, ib, sq, dq);
                if ch == '\n' { lemma_breaks_cons('\n', sc(s, i + 1, il, ib, sq, dq)); }
            }
        } else if !sq && !dq && ch == '/' && nx_slash {
            lemma_sc_keeps_lines(s, i + 2, true, ib, sq, dq);
        } else if !sq && !dq && ch == '/' && nx_star {
            lemma_sc_keeps_lines(s, i + 2, il, 1, sq, dq);
        } else if ch == '\\' && (sq || dq) && i + 1 < s.len() {
            let rest = sc(s, i + 2, il, ib, sq, dq);
            lemma_sc_keeps_lines(s, i + 2, il, ib, sq, dq);
            lemma_breaks_cons(s[i + 1], rest);
            lemma_breaks_cons(ch, seq![s[i + 1]] + rest);
            assert(seq![ch, s[i + 1]] + rest =~= seq![ch] + (seq![s[i + 1]] + rest));
        } else if ch == '\\' && (sq || dq) {
            let rest = sc(s, i + 1, il, ib, sq, dq);
            lemma_sc_keeps_lines(s, i + 1, il, ib, sq, dq);
            lemma_breaks_cons(ch, rest);
            lemma_breaks_cons(ch, seq![ch] + rest);
            assert(seq![ch, ch] + rest =~= seq![ch] + (seq![ch] + rest));
        } else if ch == '\'' && !dq {
            lemma_sc_keeps_lines(s, i + 1, il, ib, !sq, dq);
            lemma_breaks_cons(ch, sc(s, i + 1, il, ib, !sq, dq));
        } else if ch == '"' && !sq {
            lemma_sc_keeps_lines(s, i + 1, il, ib, sq, !dq);
            lemma_breaks_cons(ch, sc(s, i + 1, il, ib, sq, !dq));
        } else {
            lemma_sc_keeps_lines(s, i + 1, il, ib, sq, dq);
            lemma_breaks_cons(ch, sc(s, i + 1, il, ib, sq, dq));
        }
    }
}

/// Removes `//` line comments and nested `/* */` block comments outside
/// string and character literals.
pub fn strip_comments(src: &str) -> (r: String)
    requires src@.len() <= 0x1000_0000,
    ensures r@ == sc(src@, 0, false, 0, false, false),
{
    let chars = chars_of(src);
    let ghost s = src@;
    let mut out: Vec<char> = Vec::new();
    let mut i: usize = 0;
    let mut in_line = false;
    let mut in_block: i32 = 0;
    let mut in_single = false;
    let mut in_double = false;
    while i < chars.len()
        invariant
            chars@ == s, s.len() <= 0x1000_0000, i <= chars.len() + 1, 0 <= in_block <= i,
            out@ + sc(s, i as int, in_line, in_block as int, in_single, in_double) == sc(s, 0, false, 0, false, false),
        decreases chars.len() + 1 - i,
    {
        let ghost o0 = out@;
        let ghost (i0, il0, ib0, sq0, dq0) = (i as int, in_line, in_block as int, in_single, in_double);
        let ch = chars[i];
        let nx_star = i + 1 < chars.len() && chars[i + 1] == '*';
        let nx_slash = i + 1 < chars.len() && chars[i + 1] == '/';
        if in_line {
            if ch == '\n' {
                in_line = false;
                out.push('\n');
            }
            i += 1;
        } else if in_block > 0 {
            if ch == '/' && nx_star {
                in_block += 1;
                i += 2;
            } else if ch == '*' && nx_slash {
                in_block -= 1;
                i += 2;
            } else {
                if ch == '\n' {
                    out.push('\n');
                }
                i += 1;
            }
        } else if !in_single && !in_double && ch == '/' && nx_slash {
            in_line = true;
            i += 2;
        } else if !in_single && !in_double && ch == '/' && nx_star {
            in_block = 1;
            i += 2;
        } else if ch == '\\' && (in_single || in_double) && i + 1 < chars.len() {
            out.push(ch);
            out.push(chars[i + 1]);
            i += 2;
        } else if ch == '\\' && (in_single || in_double) {
            out.push(ch);
            out.push(ch);
            i += 1;
        } else {
            if ch == '\'' && !in_double {
                in_single = !in_single;
            } else if ch == '"' && !in_single {
                in_double = !in_double;
            }
            out.push(ch);
            i += 1;
        }
        assert(o0 + sc(s, i0, il0, ib0, sq0, dq0) =~= out@ + sc(s, i as int, in_line, in_block as int, in_single, in_double));
    }
    assert(out@ =~= sc(s, 0, false, 0, false, false));
    string_of(&out)
}

/// A token: a statement's code, or a brace.
#[derive(Debug)]
pub enum TokKind {
    Code(String),
    LBrace,
    RBrace,
}

/// A token and the (1-based) line it is on.
#[derive(Debug)]
pub struct Tok {
    pub kind: TokKind,
    pub line: usize,
}

pub ghost enum TokKindV {
    Code(Seq<char>),
    LBrace,
    RBrace,
}

pub ghost struct TokV {
    pub kind: TokKindV,
    pub line: usize,
}

impl View for Tok {
    type V = TokV;

    open spec fn view(&self) -> TokV {
        TokV {
            kind: match self.kind {
                TokKind::Code(s) => TokKindV::Code(s@),
                TokKind::LBrace => TokKindV::LBrace,
                TokKind::RBrace => TokKindV::RBrace,
            },
            line: self.line,
        }
    }
}

pub open spec fn toks_view(v: Seq<Tok>) -> Seq<TokV> {
    v.map_values(|t: Tok| t@)
}

/// The code token for the pending text `cur`, if it is not blank.
pub open spec fn flush_tok(cur: Seq<char>, ln: usize) -> Seq<TokV> {
    if spec_trim(cur).len() > 0 { seq![TokV { kind: TokKindV::Code(spec_trim(cur)), line: ln }] } else { Seq::empty() }
}

/// The tokens of one line from position `i`: code is split at `;`, `{`
/// and `}` outside literals, braces become tokens of their own, and blank
/// pieces are dropped.
pub open spec fn tok_line(line: Seq<char>, ln: usize, i: int, cur: Seq<char>, sq: bool, dq: bool) -> Seq<TokV>
    decreases line.len() + 1 - i,
{
    if i >= line.len() || i < 0 {
        flush_tok(cur, ln)
    } else {
        let ch = line[i];
        if ch == '\\' && (sq || dq) && i + 1 < line.len() {
            tok_line(line, ln, i + 2, cur.push(ch).push(line[i + 1]), sq, dq)
        } else if ch == '\\' && (sq || dq) {
            tok_line(line, ln, i + 1, cur.push(ch).push(ch), sq, dq)
        } else if ch == '\'' && !dq {
            tok_line(line, ln, i + 1, cur.push(ch), !sq, dq)
        } else if ch == '"' && !sq {
            tok_line(line, ln, i + 1, cur.push(ch), sq, !dq)
        } else if !sq && !dq && ch == '{' {
            flush_tok(cur, ln) + seq![TokV { kind: TokKindV::LBrace, line: ln }] + tok_line(line, ln, i + 1, Seq::empty(), sq, dq)
        } else if !sq && !dq && ch == '}' {
            flush_tok(cur, ln) + seq![TokV { kind: TokKindV::RBrace, line: ln }] + tok_line(line, ln, i + 1, Seq::empty(), sq, dq)
        } else if !sq && !dq && ch == ';' {
            flush_tok(cur, ln) + tok_line(line, ln, i + 1, Seq::empty(), sq, dq)
        } else {
            tok_line(line, ln, i + 1, cur.push(ch), sq, dq)
        }
    }
}

/// The tokens of the first `k` lines.
pub open spec fn toks_of_lines(ls: Seq<Seq<char>>, k: int) -> Seq<TokV>
    decreases k,
{
    if k <= 0 { Seq::empty() } else { toks_of_lines(ls, k - 1) + tok_line(ls[k - 1], k as usize, 0, Seq::empty(), false, false) }
}

pub open spec fn spec_tokenize(src: Seq<char>) -> Seq<TokV> {
    toks_of_lines(split_lines(src), split_lines(src).len() as int)
}

fn flush_into(out: &mut Vec<Tok>, cur: &Vec<char>, ln: usize)
    ensures toks_view(final(out)@) == toks_view(old(out)@) + flush_tok(cur@, ln),
{
    let t = trim_vec(cur);
    let ghost o0 = toks_view(out@);
    if t.len() > 0 {
        out.push(Tok { kind: TokKind::Code(string_of(&t)), line: ln });
        assert(toks_view(out@) =~= o0 + flush_tok(cur@, ln));
    } else {
        assert(toks_view(out@) =~= o0 + flush_tok(cur@, ln));
    }
}

fn push_brace(out: &mut Vec<Tok>, open: bool, ln: usize)
    ensures toks_view(final(out)@) == toks_view(old(out)@).push(
        TokV { kind: if open { TokKindV::LBrace } else { TokKindV::RBrace }, line: ln }),
{
    let ghost o0 = toks_view(out@);
    out.push(Tok { kind: if open { TokKind::LBrace } else { TokKind::RBrace }, line: ln });
    assert(toks_view(out@) =~= o0.push(out@.last()@));
}

/// Splits the source into statement and brace tokens, line by line.
pub fn tokenize(src: &str) -> (out: Vec<Tok>)
    ensures toks_view(out@) == spec_tokenize(src@),
{
    let lines = lines_of(src);
    let ghost ls = lines@.map_values(|x: String| x@);
    let mut out: Vec<Tok> = Vec::new();
    let mut k: usize = 0;
    assert(toks_view(out@) =~= Seq::<TokV>::empty());
    while k < lines.len()
        invariant
            k <= lines.len(), ls == lines@.map_values(|x: String| x@),
            toks_view(out@) == toks_of_lines(ls, k as int),
        decreases lines.len() - k,
    {
        let ln = k + 1;
        let chars = chars_of(lines[k].as_str());
        let ghost line = ls[k as int];
        let ghost start = toks_view(out@);
        let mut cur: Vec<char> = Vec::new();
        let mut in_single = false;
        let mut in_double = false;
        let mut i: usize = 0;
        assert(cur@ =~= Seq::<char>::empty());
        while i < chars.len()
            invariant
                chars@ == line, i <= chars.len() + 1,
                toks_view(out@) + tok_line(line, ln, i as int, cur@, in_single, in_double)
                    == start + tok_line(line, ln, 0, Seq::empty(), false, false),
            decreases chars.len() + 1 - i,
        {
            let ghost o0 = toks_view(out@);
            let ghost (i0, c0, sq0, dq0) = (i as int, cur@, in_single, in_double);
            let ch = chars[i];
            if ch == '\\' && (in_single || in_double) && i + 1 < chars.len() {
                cur.push(ch);
                cur.push(chars[i + 1]);
                i += 2;
            } else if ch == '\\' && (in_single || in_double) {
                cur.push(ch);
                cur.push(ch);
                i += 1;
            } else if ch == '\'' && !in_double {
                in_single = !in_single;
                cur.push(ch);
                i += 1;
            } else if ch == '"' && !in_single {
                in_double = !in_double;
                cur.push(ch);
                i += 1;
            } else if !in_single && !in_double && (ch == '{' || ch == '}') {
                flush_into(&mut out, &cur, ln);
                push_brace(&mut out, ch == '{', ln);
                cur = Vec::new();
                i += 1;
            } else if !in_single && !in_double && ch == ';' {
                flush_into(&mut out, &cur, ln);
                cur = Vec::new();
                i += 1;
            } else {
                cur.push(ch);
                i += 1;
            }
            assert(o0 + tok_line(line, ln, i0, c0, sq0, dq0) =~= toks_view(out@) + tok_line(line, ln, i as int, cur@, in_single, in_double));
        }
        flush_into(&mut out, &cur, ln);
        proof {
            assert(toks_view(out@) =~= start + tok_line(line, ln, 0, Seq::empty(), false, false));
        }
        k += 1;
    }
    out
}

pub open spec fn take_at_most(s: Seq<char>, n: int) -> Seq<char> {
    if s.len() <= n { s } else { s.take(n) }
}

/// The node text of one Rust statement: `Return`, `Assign: x`,
/// `Update: x`, a function signature, or `Expr: ...`.
pub open spec fn spec_summarize_stmt(code: Seq<char>) -> Seq<char> {
    let s = spec_trim(code);
    let name = spec_trim(spec_before_any(
        spec_trim_start(strip_all_prefix(spec_trim_start(strip_all_prefix(s, "let "@)), "mut "@)), seq![':', '=', ' ', ',']));
    if seq_starts_with(s, "return"@) {
        "Return"@
    } else if s == "break"@ {
        "break"@
    } else if s == "continue"@ {
        "continue"@
    } else if seq_starts_with(s, "let "@) && s.contains('=') && name.len() > 0 {
        "Assign: "@ + name
    } else if seq_contains(s, "+="@) || seq_contains(s, "-="@) || seq_contains(s, "*="@) || seq_contains(s, "/="@) {
        "Update: "@ + spec_trim(spec_before_char(s, '='))
    } else if seq_starts_with(s, "fn "@) {
        spec_norm_ws(spec_before_char(s, '{'))
    } else {
        "Expr: "@ + take_at_most(s, 120)
    }
}

fn lit(s: &str) -> (r: Vec<char>)
    ensures r@ == s@,
{
    chars_of(s)
}

fn has_char(v: &Vec<char>, c: char) -> (r: bool)
    ensures r == v@.contains(c),
{
    crate::text::char_in(v, c)
}

fn summarize_vec(code: &Vec<char>) -> (r: Vec<char>)
    ensures r@ == spec_summarize_stmt(code@),
{
    let s = trim_vec(code);
    let a = strip_all_prefix_vec(&s, &lit("let "));
    let b = trim_start_vec(&a);
    let c = strip_all_prefix_vec(&b, &lit("mut "));
    let d = trim_start_vec(&c);
    let mut seps: Vec<char> = Vec::new();
    seps.push(':');
    seps.push('=');
    seps.push(' ');
    seps.push(',');
    assert(seps@ =~= seq![':', '=', ' ', ',']);
    let name = trim_vec(&before_any(&d, &seps));
    if starts_with_vec(&s, &lit("return")) {
        return lit("Return");
    }
    if eq_vec(&s, &lit("break")) {
        return lit("break");
    }
    if eq_vec(&s, &lit("continue")) {
        return lit("continue");
    }
    if starts_with_vec(&s, &lit("let ")) && has_char(&s, '=') && name.len() > 0 {
        let mut r = lit("Assign: ");
        append_chars(&mut r, &name);
        return r;
    }
    if contains_vec(&s, &lit("+=")) || contains_vec(&s, &lit("-=")) || contains_vec(&s, &lit("*="))
        || contains_vec(&s, &lit("/=")) {
        let mut r = lit("Update: ");
        append_chars(&mut r, &trim_vec(&before_char(&s, '=')));
        return r;
    }
    if starts_with_vec(&s, &lit("fn ")) {
        return norm_ws(&before_char(&s, '{'));
    }
    let mut r = lit("Expr: ");
    let e = if s.len() <= 120 { slice_vec(&s, 0, s.len()) } else { slice_vec(&s, 0, 120) };
    assert(e@ =~= take_at_most(s@, 120));
    append_chars(&mut r, &e);
    r
}

/// The node text of one statement (`spec_summarize_stmt`).
pub fn summarize_stmt(code: &str) -> (r: String)
    ensures r@ == spec_summarize_stmt(code@),
{
    string_of(&summarize_vec(&chars_of(code)))
}

/// One arm of a decision: its edge label and its statements.
#[derive(Debug)]
pub struct Branch {
    pub label: String,
    pub body: Vec<AstNode>,
}

/// A statement of the parsed source.
#[derive(Debug)]
pub enum AstNode {
    Process { text: String, line_start: usize, line_end: usize },
    Function { header: String, line_start: usize, line_end: usize, body: Vec<AstNode> },
    Loop { header: String, line_start: usize, line_end: usize, body: Vec<AstNode> },
    Decision {
        text: String,
        line_start: usize,
        line_end: usize,
        branches: Vec<Branch>,
        default_branch: Option<Vec<AstNode>>,
    },
}

pub ghost enum AstV {
    Process { text: Seq<char>, line_start: usize, line_end: usize },
    Function { header: Seq<char>, line_start: usize, line_end: usize, body: Seq<AstV> },
    Loop { header: Seq<char>, line_start: usize, line_end: usize, body: Seq<AstV> },
    Decision {
        text: Seq<char>,
        line_start: usize,
        line_end: usize,
        branches: Seq<(Seq<char>, Seq<AstV>)>,
        default_branch: Option<Seq<AstV>>,
    },
}

pub open spec fn ast_v(a: AstNode) -> AstV
    decreases a,
{
    match a {
        AstNode::Process { text, line_start, line_end } => AstV::Process { text: text@, line_start, line_end },
        AstNode::Function { header, line_start, line_end, body } =>
            AstV::Function { header: header@, line_start, line_end, body: asts_v(body@, body@.len() as int) },
        AstNode::Loop { header, line_start, line_end, body } =>
            AstV::Loop { header: header@, line_start, line_end, body: asts_v(body@, body@.len() as int) },
        AstNode::Decision { text, line_start, line_end, branches, default_branch } => AstV::Decision {
            text: text@, line_start, line_end,
            branches: branches_v(branches@, branches@.len() as int),
            default_branch: match default_branch { Some(d) => Some(asts_v(d@, d@.len() as int)), None => None },
        },
    }
}

pub open spec fn asts_v(s: Seq<AstNode>, k: int) -> Seq<AstV>
    decreases s, k,
{
    if k <= 0 || k > s.len() { Seq::empty() } else { asts_v(s, k - 1).push(ast_v(s[k - 1])) }
}

pub open spec fn branches_v(s: Seq<Branch>, k: int) -> Seq<(Seq<char>, Seq<AstV>)>
    decreases s, k,
{
    if k <= 0 || k > s.len() {
        Seq::empty()
    } else {
        branches_v(s, k - 1).push((s[k - 1].label@, asts_v(s[k - 1].body@, s[k - 1].body@.len() as int)))
    }
}

pub open spec fn list_v(v: Vec<AstNode>) -> Seq<AstV> {
    asts_v(v@, v@.len() as int)
}

pub open spec fn is_lbrace(t: Seq<TokV>, i: int) -> bool {
    0 <= i < t.len() && t[i].kind is LBrace
}

pub open spec fn code_of(k: TokKindV) -> Seq<char> {
    match k { TokKindV::Code(s) => s, _ => Seq::empty() }
}

/// Whether a nested parse ending at `x` moved past token `i`.
pub open spec fn adv(x: int, i: int, len: nat) -> bool {
    i < x <= len
}

pub open spec fn is_loop_head(c: Seq<char>) -> bool {
    seq_starts_with(c, "for "@) || seq_starts_with(c, "while "@) || c == "loop"@ || seq_starts_with(c, "loop "@)
}

pub type PRes = (Seq<AstV>, int);

/// The statements from token `i` on (appended to `out`) and the index
/// after them: up to the end, or past the closing brace when `stop`.
pub open spec fn pb(t: Seq<TokV>, i: int, stop: bool, out: Seq<AstV>) -> PRes
    decreases t.len() - i, 3int,
{
    if i < 0 || i >= t.len() {
        (out, i)
    } else {
        match t[i].kind {
            TokKindV::RBrace => if stop { (out, i + 1) } else { pb(t, i + 1, stop, out) },
            TokKindV::LBrace => pb(t, i + 1, stop, out),
            TokKindV::Code(code) => {
                let c = spec_trim(code);
                let ln = t[i].line;
                if c.len() == 0 {
                    pb(t, i + 1, stop, out)
                } else if seq_starts_with(c, "if "@) {
                    let r = pif(c, ln, t, i + 1);
                    if adv(r.1, i, t.len()) { pb(t, r.1, stop, out.push(r.0)) } else { (out.push(r.0), r.1) }
                } else if is_loop_head(c) {
                    let r = p_body(t, i + 1);
                    let node = AstV::Loop { header: c, line_start: ln, line_end: ln, body: r.0 };
                    if adv(r.1, i, t.len()) { pb(t, r.1, stop, out.push(node)) } else { (out.push(node), r.1) }
                } else if seq_starts_with(c, "match "@) {
                    let r = pmatch(c, ln, t, i + 1);
                    if adv(r.1, i, t.len()) { pb(t, r.1, stop, out.push(r.0)) } else { (out.push(r.0), r.1) }
                } else if seq_starts_with(c, "fn "@) {
                    let r = p_body(t, i + 1);
                    let node = AstV::Function { header: spec_summarize_stmt(c), line_start: ln, line_end: ln, body: r.0 };
                    if adv(r.1, i, t.len()) { pb(t, r.1, stop, out.push(node)) } else { (out.push(node), r.1) }
                } else {
                    pb(t, i + 1, stop, out.push(AstV::Process { text: spec_summarize_stmt(c), line_start: ln, line_end: ln }))
                }
            },
        }
    }
}

proof fn lemma_take_push(res: Seq<AstV>, out: Seq<AstV>, x: AstV)
    requires out.len() + 1 <= res.len(), res.take(out.len() + 1int) == out.push(x),
    ensures out.len() <= res.len(), res.take(out.len() as int) == out,
{
    assert(res.take(out.len() as int) =~= res.take(out.len() + 1int).take(out.len() as int));
    assert(out.push(x).take(out.len() as int) =~= out);
}

/// Parsing a block only appends: the statements parsed before stay in
/// front, in their order.
pub proof fn lemma_pb_appends(t: Seq<TokV>, i: int, stop: bool, out: Seq<AstV>)
    ensures
        out.len() <= pb(t, i, stop, out).0.len(),
        pb(t, i, stop, out).0.take(out.len() as int) == out,
    decreases t.len() - i,
{
    if 0 <= i < t.len() {
        match t[i].kind {
            TokKindV::RBrace => {
                if !stop {
                    lemma_pb_appends(t, i + 1, stop, out);
                }
            },
            TokKindV::LBrace => {
                lemma_pb_appends(t, i + 1, stop, out);
            },
            TokKindV::Code(code) => {
                let c = spec_trim(code);
                let ln = t[i].line;
                if c.len() == 0 {
                    lemma_pb_appends(t, i + 1, stop, out);
                } else {
                    let (x, j): (AstV, int) = if seq_starts_with(c, "if "@) {
                        pif(c, ln, t, i + 1)
                    } else if is_loop_head(c) {
                        let r = p_body(t, i + 1);
                        (AstV::Loop { header: c, line_start: ln, line_end: ln, body: r.0 }, r.1)
                    } else if seq_starts_with(c, "match "@) {
                        pmatch(c, ln, t, i + 1)
                    } else if seq_starts_with(c, "fn "@) {
                        let r = p_body(t, i + 1);
                        (AstV::Function { header: spec_summarize_stmt(c), line_start: ln, line_end: ln, body: r.0 }, r.1)
                    } else {
                        (AstV::Process { text: spec_summarize_stmt(c), line_start: ln, line_end: ln }, i + 1)
                    };
                    if adv(j, i, t.len()) {
                        lemma_pb_appends(t, j, stop, out.push(x));
                        lemma_take_push(pb(t, j, stop, out.push(x)).0, out, x);
                    } else {
                        assert(out.push(x).take(out.len() + 1int) =~= out.push(x));
                        lemma_take_push(out.push(x), out, x);
                    }
                }
            },
        }
    } else {
        assert(out.take(out.len() as int) =~= out);
    }
}

/// A braced body at token `i`, if there is one.
pub open spec fn p_body(t: Seq<TokV>, i: int) -> PRes
    decreases t.len() - i, 1int,
{
    if is_lbrace(t, i) { pb(t, i + 1, true, Seq::empty()) } else { (Seq::empty(), i) }
}

/// An `if` whose header `c` is on line `ln`, its body from token `i`, and
/// its `else if` / `else` continuation; every `else if` becomes a decision
/// of its own in the default branch.
pub open spec fn pif(c: Seq<char>, ln: usize, t: Seq<TokV>, i: int) -> (AstV, int)
    decreases t.len() - i, 2int,
{
    let cond = spec_trim(strip_all_prefix(c, "if"@));
    let r = p_body(t, i);
    let branches = if is_lbrace(t, i) { seq![("yes"@, r.0)] } else { Seq::empty() };
    let i1 = r.1;
    if !(i <= i1 <= t.len()) {
        (AstV::Decision { text: "if "@ + cond, line_start: ln, line_end: ln, branches, default_branch: None }, i1)
    } else {
        let e = pif_else(t, i1, ln, None);
        (AstV::Decision { text: "if "@ + cond, line_start: ln, line_end: ln, branches, default_branch: e.0 }, e.1)
    }
}

pub open spec fn pif_else(t: Seq<TokV>, i: int, ln: usize, d: Option<Seq<AstV>>) -> (Option<Seq<AstV>>, int)
    decreases t.len() - i, 1int,
{
    if i < 0 || i >= t.len() {
        (d, i)
    } else {
        match t[i].kind {
            TokKindV::Code(cc) => {
                if seq_starts_with(spec_trim_start(cc), "else if "@) {
                    let ec = spec_trim(strip_all_prefix(spec_trim_start(cc), "else if"@));
                    let b = p_body(t, i + 1);
                    let dn = AstV::Decision {
                        text: "if "@ + ec, line_start: ln, line_end: ln, branches: seq![("yes"@, b.0)], default_branch: None,
                    };
                    let d2 = match d { Some(v) => Some(v.push(dn)), None => Some(seq![dn]) };
                    if adv(b.1, i, t.len()) { pif_else(t, b.1, ln, d2) } else { (d2, b.1) }
                } else if spec_trim(cc) == "else"@ {
                    if is_lbrace(t, i + 1) {
                        let r = pb(t, i + 2, true, Seq::empty());
                        (Some(r.0), r.1)
                    } else {
                        (d, i + 1)
                    }
                } else {
                    (d, i)
                }
            },
            _ => (d, i),
        }
    }
}

/// A `match` whose header `c` is on line `ln`, its arms from token `i`.
pub open spec fn pmatch(c: Seq<char>, ln: usize, t: Seq<TokV>, i: int) -> (AstV, int)
    decreases t.len() - i, 2int,
{
    let expr = spec_trim(strip_all_prefix(c, "match"@));
    let r = if is_lbrace(t, i) { pm_arms(t, i + 1, ln, Seq::empty(), None) } else { (Seq::empty(), None, i) };
    (AstV::Decision { text: "match "@ + expr, line_start: ln, line_end: ln, branches: r.0, default_branch: r.1 }, r.2)
}

/// The arms of a `match` from token `i`: `case` branches, with `_` as the
/// default branch; an arm without braces holds its one expression.
pub open spec fn pm_arms(t: Seq<TokV>, i: int, ln: usize, br: Seq<(Seq<char>, Seq<AstV>)>, d: Option<Seq<AstV>>)
    -> (Seq<(Seq<char>, Seq<AstV>)>, Option<Seq<AstV>>, int)
    decreases t.len() - i, 1int,
{
    if i < 0 || i >= t.len() {
        (br, d, i)
    } else {
        match t[i].kind {
            TokKindV::RBrace => (br, d, i + 1),
            TokKindV::LBrace => pm_arms(t, i + 1, ln, br, d),
            TokKindV::Code(code) => match first_occurrence(code, "=>"@, 0) {
                Some(p) => {
                    let label = spec_trim_end_char(spec_trim(code.take(p)), ',');
                    let rhs_t = spec_trim(spec_trim_end_char(spec_trim(code.skip(p + "=>"@.len())), ','));
                    let b = if is_lbrace(t, i + 1) {
                        pb(t, i + 2, true, Seq::empty())
                    } else if rhs_t.len() > 0 {
                        (seq![AstV::Process { text: spec_summarize_stmt(rhs_t), line_start: ln, line_end: ln }], i + 1)
                    } else {
                        (Seq::empty(), i + 1)
                    };
                    let br2 = if label == "_"@ { br } else { br.push(("case "@ + label, b.0)) };
                    let d2 = if label == "_"@ { Some(b.0) } else { d };
                    if adv(b.1, i, t.len()) { pm_arms(t, b.1, ln, br2, d2) } else { (br2, d2, b.1) }
                },
                None => pm_arms(t, i + 1, ln, br, d),
            },
        }
    }
}

pub open spec fn opt_list_v(d: Option<Vec<AstNode>>) -> Option<Seq<AstV>> {
    match d { Some(v) => Some(list_v(v)), None => None }
}

proof fn lemma_asts_v_prefix(a: Seq<AstNode>, b: Seq<AstNode>, k: int)
    requires 0 <= k <= a.len(), k <= b.len(), forall|j: int| 0 <= j < k ==> a[j] == b[j],
    ensures asts_v(a, k) == asts_v(b, k),
    decreases k,
{
    if k > 0 {
        lemma_asts_v_prefix(a, b, k - 1);
    }
}

proof fn lemma_branches_v_prefix(a: Seq<Branch>, b: Seq<Branch>, k: int)
    requires 0 <= k <= a.len(), k <= b.len(), forall|j: int| 0 <= j < k ==> a[j] == b[j],
    ensures branches_v(a, k) == branches_v(b, k),
    decreases k,
{
    if k > 0 {
        lemma_branches_v_prefix(a, b, k - 1);
    }
}

fn push_ast(out: &mut Vec<AstNode>, node: AstNode)
    ensures list_v(*final(out)) == list_v(*old(out)).push(ast_v(node)),
{
    let ghost o0 = out@;
    out.push(node);
    proof { lemma_asts_v_prefix(out@, o0, o0.len() as int); }
}

fn push_branch(out: &mut Vec<Branch>, b: Branch)
    ensures
        branches_v(final(out)@, final(out)@.len() as int)
            == branches_v(old(out)@, old(out)@.len() as int).push((b.label@, list_v(b.body))),
{
    let ghost o0 = out@;
    out.push(b);
    proof { lemma_branches_v_prefix(out@, o0, o0.len() as int); }
}

fn tok_is_lbrace(toks: &[Tok], i: usize) -> (r: bool)
    ensures r == is_lbrace(toks_view(toks@), i as int), r ==> i < toks@.len(), toks@.len() <= usize::MAX,
{
    let _n = toks.len();
    assert(toks_view(toks@).len() == toks@.len());
    proof { if i < toks@.len() { assert(toks_view(toks@)[i as int] == toks@[i as int]@); } }
    i < toks.len() && matches!(toks[i].kind, TokKind::LBrace)
}

fn pb_at(toks: &[Tok], i: usize, stop: bool) -> (r: (Vec<AstNode>, usize))
    requires i <= toks@.len(),
    ensures
        (list_v(r.0), r.1 as int) == pb(toks_view(toks@), i as int, stop, Seq::empty()),
        i <= r.1 <= toks@.len(),
    decreases toks@.len() - i, 3int,
{
    let ghost t = toks_view(toks@);
    let ghost target = pb(t, i as int, stop, Seq::empty());
    let mut out: Vec<AstNode> = Vec::new();
    let mut k = i;
    assert(list_v(out) =~= Seq::<AstV>::empty());
    while k < toks.len()
        invariant
            t == toks_view(toks@), i <= k <= toks@.len(),
            target == pb(t, i as int, stop, Seq::empty()),
            pb(t, k as int, stop, list_v(out)) == target,
        decreases toks@.len() - k,
    {
        assert(t[k as int] == toks@[k as int]@);
        let ln = toks[k].line;
        match &toks[k].kind {
            TokKind::RBrace => {
                if stop {
                    return (out, k + 1);
                }
                k += 1;
            },
            TokKind::LBrace => {
                k += 1;
            },
            TokKind::Code(code) => {
                let c = trim_vec(&chars_of(code.as_str()));
                if c.len() == 0 {
                    k += 1;
                } else if starts_with_vec(&c, &lit("if ")) {
                    let (node, ni) = pif_at(&c, ln, toks, k + 1);
                    push_ast(&mut out, node);
                    k = ni;
                } else if starts_with_vec(&c, &lit("for ")) || starts_with_vec(&c, &lit("while ")) || eq_vec(&c, &lit("loop"))
                    || starts_with_vec(&c, &lit("loop ")) {
                    let (body, ni) = p_body_at(toks, k + 1);
                    push_ast(&mut out, AstNode::Loop { header: string_of(&c), line_start: ln, line_end: ln, body });
                    k = ni;
                } else if starts_with_vec(&c, &lit("match ")) {
                    let (node, ni) = pmatch_at(&c, ln, toks, k + 1);
                    push_ast(&mut out, node);
                    k = ni;
                } else if starts_with_vec(&c, &lit("fn ")) {
                    let (body, ni) = p_body_at(toks, k + 1);
                    push_ast(&mut out, AstNode::Function { header: string_of(&summarize_vec(&c)), line_start: ln, line_end: ln, body });
                    k = ni;
                } else {
                    push_ast(&mut out, AstNode::Process { text: string_of(&summarize_vec(&c)), line_start: ln, line_end: ln });
                    k += 1;
                }
            },
        }
    }
    (out, k)
}

fn p_body_at(toks: &[Tok], i: usize) -> (r: (Vec<AstNode>, usize))
    requires i <= toks@.len(),
    ensures
        (list_v(r.0), r.1 as int) == p_body(toks_view(toks@), i as int),
        i <= r.1 <= toks@.len(),
    decreases toks@.len() - i, 1int,
{
    if tok_is_lbrace(toks, i) {
        pb_at(toks, i + 1, true)
    } else {
        let v: Vec<AstNode> = Vec::new();
        assert(list_v(v) =~= Seq::<AstV>::empty());
        (v, i)
    }
}

fn pif_at(c: &Vec<char>, ln: usize, toks: &[Tok], i: usize) -> (r: (AstNode, usize))
    requires i <= toks@.len(),
    ensures
        (ast_v(r.0), r.1 as int) == pif(c@, ln, toks_view(toks@), i as int),
        i <= r.1 <= toks@.len(),
    decreases toks@.len() - i, 2int,
{
    let cond = trim_vec(&strip_all_prefix_vec(c, &lit("if")));
    let mut text = lit("if ");
    append_chars(&mut text, &cond);
    let has_body = tok_is_lbrace(toks, i);
    let (then_body, i1) = p_body_at(toks, i);
    let mut branches: Vec<Branch> = Vec::new();
    assert(branches_v(branches@, 0) =~= Seq::<(Seq<char>, Seq<AstV>)>::empty());
    if has_body {
        push_branch(&mut branches, Branch { label: String::from_str("yes"), body: then_body });
        assert(branches_v(branches@, branches@.len() as int) =~= seq![("yes"@, list_v(then_body))]);
    }
    let (default_branch, i2) = pif_else_at(toks, i1, ln, None);
    let node = AstNode::Decision { text: string_of(&text), line_start: ln, line_end: ln, branches, default_branch };
    (node, i2)
}

fn pif_else_at(toks: &[Tok], i: usize, ln: usize, d_in: Option<Vec<AstNode>>) -> (r: (Option<Vec<AstNode>>, usize))
    requires i <= toks@.len(),
    ensures
        (opt_list_v(r.0), r.1 as int) == pif_else(toks_view(toks@), i as int, ln, opt_list_v(d_in)),
        i <= r.1 <= toks@.len(),
    decreases toks@.len() - i, 1int,
{
    let ghost t = toks_view(toks@);
    let ghost target = pif_else(t, i as int, ln, opt_list_v(d_in));
    let mut d = d_in;
    let mut k = i;
    while k < toks.len()
        invariant
            t == toks_view(toks@), i <= k <= toks@.len(),
            target == pif_else(t, i as int, ln, opt_list_v(d_in)),
            pif_else(t, k as int, ln, opt_list_v(d)) == target,
        decreases toks@.len() - k,
    {
        assert(t[k as int] == toks@[k as int]@);
        match &toks[k].kind {
            TokKind::Code(cc) => {
                let cs = chars_of(cc.as_str());
                let ts = trim_start_vec(&cs);
                if starts_with_vec(&ts, &lit("else if ")) {
                    let ec = trim_vec(&strip_all_prefix_vec(&ts, &lit("else if")));
                    let mut text = lit("if ");
                    append_chars(&mut text, &ec);
                    let (body, ni) = p_body_at(toks, k + 1);
                    let mut branches: Vec<Branch> = Vec::new();
                    assert(branches_v(branches@, 0) =~= Seq::<(Seq<char>, Seq<AstV>)>::empty());
                    push_branch(&mut branches, Branch { label: String::from_str("yes"), body });
                    assert(branches_v(branches@, branches@.len() as int) =~= seq![("yes"@, list_v(body))]);
                    let dn = AstNode::Decision {
                        text: string_of(&text), line_start: ln, line_end: ln, branches, default_branch: None,
                    };
                    d = match d {
                        Some(v) => {
                            let mut v = v;
                            push_ast(&mut v, dn);
                            Some(v)
                        },
                        None => {
                            let mut v: Vec<AstNode> = Vec::new();
                            assert(list_v(v) =~= Seq::<AstV>::empty());
                            push_ast(&mut v, dn);
                            assert(list_v(v) =~= seq![ast_v(dn)]);
                            Some(v)
                        },
                    };
                    k = ni;
                } else if eq_vec(&trim_vec(&cs), &lit("else")) {
                    if tok_is_lbrace(toks, k + 1) {
                        let (b, ni) = pb_at(toks, k + 2, true);
                        return (Some(b), ni);
                    }
                    return (d, k + 1);
                } else {
                    return (d, k);
                }
            },
            _ => {
                return (d, k);
            },
        }
    }
    (d, k)
}

fn pmatch_at(c: &Vec<char>, ln: usize, toks: &[Tok], i: usize) -> (r: (AstNode, usize))
    requires i <= toks@.len(),
    ensures
        (ast_v(r.0), r.1 as int) == pmatch(c@, ln, toks_view(toks@), i as int),
        i <= r.1 <= toks@.len(),
    decreases toks@.len() - i, 2int,
{
    let expr = trim_vec(&strip_all_prefix_vec(c, &lit("match")));
    let mut text = lit("match ");
    append_chars(&mut text, &expr);
    if tok_is_lbrace(toks, i) {
        let (branches, d, ni) = pm_arms_at(toks, i + 1, ln);
        (AstNode::Decision { text: string_of(&text), line_start: ln, line_end: ln, branches, default_branch: d }, ni)
    } else {
        let branches: Vec<Branch> = Vec::new();
        assert(branches_v(branches@, 0) =~= Seq::<(Seq<char>, Seq<AstV>)>::empty());
        (AstNode::Decision { text: string_of(&text), line_start: ln, line_end: ln, branches, default_branch: None }, i)
    }
}

pub open spec fn br_v(b: Vec<Branch>) -> Seq<(Seq<char>, Seq<AstV>)> {
    branches_v(b@, b@.len() as int)
}

fn pm_arms_at(toks: &[Tok], i: usize, ln: usize) -> (r: (Vec<Branch>, Option<Vec<AstNode>>, usize))
    requires i <= toks@.len(),
    ensures
        (br_v(r.0), opt_list_v(r.1), r.2 as int) == pm_arms(toks_view(toks@), i as int, ln, Seq::empty(), None),
        i <= r.2 <= toks@.len(),
    decreases toks@.len() - i, 1int,
{
    let ghost t = toks_view(toks@);
    let ghost target = pm_arms(t, i as int, ln, Seq::empty(), None);
    let mut br: Vec<Branch> = Vec::new();
    let mut d: Option<Vec<AstNode>> = None;
    let mut k = i;
    assert(br_v(br) =~= Seq::<(Seq<char>, Seq<AstV>)>::empty());
    while k < toks.len()
        invariant
            t == toks_view(toks@), i <= k <= toks@.len(),
            target == pm_arms(t, i as int, ln, Seq::empty(), None),
            pm_arms(t, k as int, ln, br_v(br), opt_list_v(d)) == target,
        decreases toks@.len() - k,
    {
        assert(t[k as int] == toks@[k as int]@);
        match &toks[k].kind {
            TokKind::RBrace => {
                return (br, d, k + 1);
            },
            TokKind::LBrace => {
                k += 1;
            },
            TokKind::Code(code) => {
                let cs = chars_of(code.as_str());
                let arrow = lit("=>");
                match find_vec(&cs, &arrow, 0) {
                    Some(p) => {
                        proof { crate::text::lemma_first_occurrence(cs@, arrow@, 0); }
                        assert(crate::text::occurs_at(cs@, arrow@, p as int));
                        let al = arrow.len();
                        let cl = cs.len();
                        let lhs = slice_vec(&cs, 0, p);
                        assert(lhs@ =~= cs@.take(p as int));
                        let rhs = slice_vec(&cs, p + al, cl);
                        assert(rhs@ =~= cs@.skip(p + "=>"@.len()));
                        let label = trim_end_char_vec(&trim_vec(&lhs), ',');
                        let rhs_t = trim_vec(&trim_end_char_vec(&trim_vec(&rhs), ','));
                        let (body, ni) = if tok_is_lbrace(toks, k + 1) {
                            pb_at(toks, k + 2, true)
                        } else if rhs_t.len() > 0 {
                            let mut v: Vec<AstNode> = Vec::new();
                            assert(list_v(v) =~= Seq::<AstV>::empty());
                            let node = AstNode::Process { text: string_of(&summarize_vec(&rhs_t)), line_start: ln, line_end: ln };
                            push_ast(&mut v, node);
                            assert(list_v(v) =~= seq![ast_v(node)]);
                            (v, k + 1)
                        } else {
                            let v: Vec<AstNode> = Vec::new();
                            assert(list_v(v) =~= Seq::<AstV>::empty());
                            (v, k + 1)
                        };
                        if eq_vec(&label, &lit("_")) {
                            d = Some(body);
                        } else {
                            let mut lab = lit("case ");
                            append_chars(&mut lab, &label);
                            push_branch(&mut br, Branch { label: string_of(&lab), body });
                        }
                        k = ni;
                    },
                    None => {
                        k += 1;
                    },
                }
            },
        }
    }
    (br, d, k)
}

/// Parses statements from token `*i` (see `pb`), leaving `*i` after them.
pub fn parse_block(toks: &[Tok], i: &mut usize, stop_on_rbrace: bool) -> (out: Vec<AstNode>)
    ensures (list_v(out), *final(i) as int) == pb(toks_view(toks@), *old(i) as int, stop_on_rbrace, Seq::empty()),
{
    if *i > toks.len() {
        let v: Vec<AstNode> = Vec::new();
        assert(list_v(v) =~= Seq::<AstV>::empty());
        return v;
    }
    let (out, ni) = pb_at(toks, *i, stop_on_rbrace);
    *i = ni;
    out
}

/// Parses an `if` chain whose header token is `tok`, its body from token
/// `*i` (see `pif`).
pub fn parse_if(tok: &Tok, toks: &[Tok], i: &mut usize) -> (node: AstNode)
    ensures (ast_v(node), *final(i) as int) == pif(code_of(tok@.kind), tok.line, toks_view(toks@), *old(i) as int),
{
    let text = match &tok.kind {
        TokKind::Code(s) => chars_of(s.as_str()),
        _ => Vec::new(),
    };
    assert(text@ =~= code_of(tok@.kind));
    if *i > toks.len() {
        let cond = trim_vec(&strip_all_prefix_vec(&text, &lit("if")));
        let mut t2 = lit("if ");
        append_chars(&mut t2, &cond);
        let branches: Vec<Branch> = Vec::new();
        assert(branches_v(branches@, 0) =~= Seq::<(Seq<char>, Seq<AstV>)>::empty());
        return AstNode::Decision { text: string_of(&t2), line_start: tok.line, line_end: tok.line, branches, default_branch: None };
    }
    let (node, ni) = pif_at(&text, tok.line, toks, *i);
    *i = ni;
    node
}

/// Parses a `match` whose header token is `tok`, its arms from token `*i`
/// (see `pmatch`).
pub fn parse_match(tok: &Tok, toks: &[Tok], i: &mut usize) -> (node: AstNode)
    ensures (ast_v(node), *final(i) as int) == pmatch(code_of(tok@.kind), tok.line, toks_view(toks@), *old(i) as int),
{
    let text = match &tok.kind {
        TokKind::Code(s) => chars_of(s.as_str()),
        _ => Vec::new(),
    };
    assert(text@ =~= code_of(tok@.kind));
    if *i > toks.len() {
        let expr = trim_vec(&strip_all_prefix_vec(&text, &lit("match")));
        let mut t2 = lit("match ");
        append_chars(&mut t2, &expr);
        let branches: Vec<Branch> = Vec::new();
        assert(branches_v(branches@, 0) =~= Seq::<(Seq<char>, Seq<AstV>)>::empty());
        return AstNode::Decision { text: string_of(&t2), line_start: tok.line, line_end: tok.line, branches, default_branch: None };
    }
    let (node, ni) = pmatch_at(&text, tok.line, toks, *i);
    *i = ni;
    node
}

pub type Pend = (Seq<char>, usize, usize);

/// Pending plain statements merged into process nodes of at most `g`
/// statements each, texts joined with ` | `.
pub open spec fn chunks(p: Seq<Pend>, g: int) -> Seq<AstV>
    decreases p.len(),
{
    if p.len() == 0 || g < 1 {
        Seq::empty()
    } else {
        let n = if g < p.len() { g } else { p.len() as int };
        let c = p.take(n);
        let text = if n == 1 { c[0].0 } else { spec_join(c.map_values(|x: Pend| x.0), " | "@) };
        seq![AstV::Process { text, line_start: c[0].1, line_end: c[n - 1].2 }] + chunks(p.skip(n), g)
    }
}

/// The first `k` statements with runs of plain statements merged (the
/// last run still pending), nested bodies compacted.
pub open spec fn ca_fold(s: Seq<AstV>, k: int, g: int) -> (Seq<AstV>, Seq<Pend>)
    decreases s, k,
{
    if k <= 0 || k > s.len() {
        (Seq::empty(), Seq::empty())
    } else {
        let (out, pend) = ca_fold(s, k - 1, g);
        match s[k - 1] {
            AstV::Process { text, line_start, line_end } => (out, pend.push((text, line_start, line_end))),
            AstV::Function { header, line_start, line_end, body } =>
                (out + chunks(pend, g) + seq![AstV::Function { header, line_start, line_end, body: ca(body, g) }], Seq::empty()),
            AstV::Loop { header, line_start, line_end, body } =>
                (out + chunks(pend, g) + seq![AstV::Loop { header, line_start, line_end, body: ca(body, g) }], Seq::empty()),
            AstV::Decision { text, line_start, line_end, branches, default_branch } =>
                (out + chunks(pend, g) + seq![AstV::Decision {
                    text, line_start, line_end,
                    branches: ca_branches(branches, branches.len() as int, g),
                    default_branch: match default_branch { Some(d) => Some(ca(d, g)), None => None },
                }], Seq::empty()),
        }
    }
}

/// The statements with every run of plain statements merged into blocks
/// of at most `g`, recursively in nested bodies.
pub open spec fn ca(s: Seq<AstV>, g: int) -> Seq<AstV>
    decreases s, s.len() + 1,
{
    let (out, pend) = ca_fold(s, s.len() as int, g);
    out + chunks(pend, g)
}

pub open spec fn ca_branches(b: Seq<(Seq<char>, Seq<AstV>)>, k: int, g: int) -> Seq<(Seq<char>, Seq<AstV>)>
    decreases b, k,
{
    if k <= 0 || k > b.len() { Seq::empty() } else { ca_branches(b, k - 1, g).push((b[k - 1].0, ca(b[k - 1].1, g))) }
}

/// The pending statements as separate process nodes.
pub open spec fn procs(p: Seq<Pend>) -> Seq<AstV> {
    p.map_values(|x: Pend| AstV::Process { text: x.0, line_start: x.1, line_end: x.2 })
}

proof fn lemma_chunks_single(p: Seq<Pend>)
    ensures chunks(p, 1) == procs(p),
    decreases p.len(),
{
    if p.len() > 0 {
        lemma_chunks_single(p.skip(1));
        assert(procs(p) =~= seq![AstV::Process { text: p[0].0, line_start: p[0].1, line_end: p[0].2 }] + procs(p.skip(1)));
        assert(p.take(1)[0] == p[0]);
    } else {
        assert(procs(p) =~= Seq::<AstV>::empty());
    }
}

proof fn lemma_fold_single(s: Seq<AstV>, k: int)
    requires 0 <= k <= s.len(),
    ensures ca_fold(s, k, 1).0 + procs(ca_fold(s, k, 1).1) == s.take(k),
    decreases s, k,
{
    if k == 0 {
        assert(procs(Seq::<Pend>::empty()) =~= Seq::<AstV>::empty());
        assert(s.take(0) =~= Seq::<AstV>::empty());
    } else {
        lemma_fold_single(s, k - 1);
        let (out0, pend0) = ca_fold(s, k - 1, 1);
        lemma_chunks_single(pend0);
        assert(decreases_to!(s => s[k - 1]));
        assert(s.take(k) =~= s.take(k - 1).push(s[k - 1]));
        assert(procs(Seq::<Pend>::empty()) =~= Seq::<AstV>::empty());
        match s[k - 1] {
            AstV::Process { text, line_start, line_end } => {
                assert(procs(pend0.push((text, line_start, line_end))) =~= procs(pend0).push(s[k - 1]));
                assert(out0 + procs(pend0).push(s[k - 1]) =~= (out0 + procs(pend0)).push(s[k - 1]));
            },
            AstV::Function { header, line_start, line_end, body } => {
                lemma_ca_single(body);
                assert((out0 + chunks(pend0, 1) + seq![s[k - 1]]) + procs(Seq::<Pend>::empty()) =~= (out0 + procs(pend0)).push(s[k - 1]));
            },
            AstV::Loop { header, line_start, line_end, body } => {
                lemma_ca_single(body);
                assert((out0 + chunks(pend0, 1) + seq![s[k - 1]]) + procs(Seq::<Pend>::empty()) =~= (out0 + procs(pend0)).push(s[k - 1]));
            },
            AstV::Decision { text, line_start, line_end, branches, default_branch } => {
                lemma_ca_branches_single(branches, branches.len() as int);
                assert(branches.take(branches.len() as int) =~= branches);
                match default_branch {
                    Some(d) => { lemma_ca_single(d); },
                    None => {},
                }
                assert((out0 + chunks(pend0, 1) + seq![s[k - 1]]) + procs(Seq::<Pend>::empty()) =~= (out0 + procs(pend0)).push(s[k - 1]));
            },
        }
    }
}

/// Compacting into blocks of one statement changes nothing.
pub proof fn lemma_ca_single(s: Seq<AstV>)
    ensures ca(s, 1) == s,
    decreases s, s.len() + 1,
{
    lemma_fold_single(s, s.len() as int);
    lemma_chunks_single(ca_fold(s, s.len() as int, 1).1);
    assert(s.take(s.len() as int) =~= s);
}

proof fn lemma_ca_branches_single(b: Seq<(Seq<char>, Seq<AstV>)>, k: int)
    requires 0 <= k <= b.len(),
    ensures ca_branches(b, k, 1) == b.take(k),
    decreases b, k,
{
    if k > 0 {
        lemma_ca_branches_single(b, k - 1);
        assert(decreases_to!(b => b[k - 1]));
        assert(decreases_to!(b[k - 1] => b[k - 1].1));
        lemma_ca_single(b[k - 1].1);
        assert(b.take(k) =~= b.take(k - 1).push(b[k - 1]));
    } else {
        assert(b.take(0) =~= Seq::<(Seq<char>, Seq<AstV>)>::empty());
    }
}

pub open spec fn pend_v(p: Seq<(String, usize, usize)>) -> Seq<Pend> {
    p.map_values(|x: (String, usize, usize)| (x.0@, x.1, x.2))
}

/// Appends the pending statements, merged by `chunks`, and clears them.
fn flush_pending(out: &mut Vec<AstNode>, pending: &mut Vec<(String, usize, usize)>, g: usize)
    requires g >= 1,
    ensures
        list_v(*final(out)) == list_v(*old(out)) + chunks(pend_v(old(pending)@), g as int),
        final(pending)@.len() == 0,
{
    let ghost p0 = pend_v(pending@);
    let ghost o0 = list_v(*out);
    let mut idx: usize = 0;
    let _n0 = pending.len();
    assert(p0.skip(0) =~= p0);
    while idx < pending.len()
        invariant
            g >= 1, idx <= pending@.len(), p0 == pend_v(pending@), pending@.len() <= usize::MAX,
            list_v(*out) + chunks(p0.skip(idx as int), g as int) == o0 + chunks(p0, g as int),
        decreases pending@.len() - idx,
    {
        let rem = pending.len() - idx;
        let n = if g < rem { g } else { rem };
        let ghost rest = p0.skip(idx as int);
        let ghost c = rest.take(n as int);
        let text: Vec<char> = if n == 1 {
            assert(c[0] == p0[idx as int]);
            chars_of(pending[idx].0.as_str())
        } else {
            let mut parts: Vec<Vec<char>> = Vec::new();
            let mut j: usize = 0;
            while j < n
                invariant j <= n, idx + n <= pending@.len(), p0 == pend_v(pending@), pending@.len() <= usize::MAX,
                    rest == p0.skip(idx as int), c == rest.take(n as int),
                    parts@.map_values(|v: Vec<char>| v@) == c.take(j as int).map_values(|x: Pend| x.0),
                decreases n - j,
            {
                let ghost before = parts@.map_values(|v: Vec<char>| v@);
                parts.push(chars_of(pending[idx + j].0.as_str()));
                assert(c[j as int] == p0[idx + j]);
                assert(parts@.map_values(|v: Vec<char>| v@) =~= before.push(c[j as int].0));
                j += 1;
                assert(c.take(j as int).map_values(|x: Pend| x.0) =~= c.take(j - 1).map_values(|x: Pend| x.0).push(c[j - 1].0));
            }
            assert(c.take(n as int) =~= c);
            join_vecs(&parts, &lit(" | "))
        };
        assert(c[0] == p0[idx as int]);
        assert(c[n - 1] == p0[idx + n - 1]);
        let node = AstNode::Process { text: string_of(&text), line_start: pending[idx].1, line_end: pending[idx + n - 1].2 };
        let ghost ob = list_v(*out);
        push_ast(out, node);
        assert(rest.skip(n as int) =~= p0.skip(idx + n));
        assert(ob + chunks(rest, g as int) =~= list_v(*out) + chunks(p0.skip(idx + n), g as int));
        idx = idx + n;
    }
    assert(chunks(p0.skip(idx as int), g as int) =~= Seq::<AstV>::empty()) by {
        assert(p0.skip(idx as int).len() == 0);
    }
    pending.clear();
    assert(list_v(*out) =~= o0 + chunks(p0, g as int));
}

/// Merges runs of plain statements into blocks of at most `max_group` (at
/// least 1) statements, recursively (`ca`).
pub fn compact_ast(stmts: Vec<AstNode>, max_group: usize) -> (r: Vec<AstNode>)
    ensures list_v(r) == ca(list_v(stmts), if max_group >= 1 { max_group as int } else { 1 }),
    decreases stmts@,
{
    let g: usize = if max_group >= 1 { max_group } else { 1 };
    let ghost orig = stmts@;
    let ghost s = list_v(stmts);
    let _n0 = stmts.len();
    proof { lemma_asts_v_len(orig, orig.len() as int); }
    let mut rest = stmts;
    let mut out: Vec<AstNode> = Vec::new();
    let mut pending: Vec<(String, usize, usize)> = Vec::new();
    let mut k: usize = 0;
    assert(list_v(out) =~= Seq::<AstV>::empty());
    assert(pend_v(pending@) =~= Seq::<Pend>::empty());
    assert(orig.skip(0) =~= orig);
    while rest.len() > 0
        invariant
            g >= 1, k <= orig.len(), rest@ == orig.skip(k as int), s == asts_v(orig, orig.len() as int),
            orig == stmts@, orig.len() <= usize::MAX, s.len() == orig.len(),
            ({
                let (o, p) = ca_fold(s, k as int, g as int);
                list_v(out) == o && pend_v(pending@) == p
            }),
        decreases rest@.len(),
    {
        let st = rest.remove(0);
        assert(st == orig[k as int]);
        assert(rest@ =~= orig.skip(k + 1));
        proof { lemma_asts_v_index(orig, orig.len() as int, k as int); }
        assert(s[k as int] == ast_v(st));
        let ghost o0 = list_v(out);
        let ghost pd0 = pend_v(pending@);
        match st {
            AstNode::Process { text, line_start, line_end } => {
                pending.push((text, line_start, line_end));
                assert(pend_v(pending@) =~= pd0.push((text@, line_start, line_end)));
            },
            AstNode::Function { header, line_start, line_end, body } => {
                flush_pending(&mut out, &mut pending, g);
                proof {
                    assert(decreases_to!(orig => orig[k as int]));
                    assert(decreases_to!(orig[k as int] => orig[k as int]->Function_body));
                    assert(orig[k as int]->Function_body == body);
                    assert(decreases_to!(body => body@));
                    assert(decreases_to!(stmts@ => body@));
                }
                let nb = compact_ast(body, g);
                push_ast(&mut out, AstNode::Function { header, line_start, line_end, body: nb });
                assert(pend_v(pending@) =~= Seq::<Pend>::empty());
            },
            AstNode::Loop { header, line_start, line_end, body } => {
                flush_pending(&mut out, &mut pending, g);
                proof {
                    assert(decreases_to!(orig => orig[k as int]));
                    assert(decreases_to!(orig[k as int] => orig[k as int]->Loop_body));
                    assert(orig[k as int]->Loop_body == body);
                    assert(decreases_to!(body => body@));
                    assert(decreases_to!(stmts@ => body@));
                }
                let nb = compact_ast(body, g);
                push_ast(&mut out, AstNode::Loop { header, line_start, line_end, body: nb });
                assert(pend_v(pending@) =~= Seq::<Pend>::empty());
            },
            AstNode::Decision { text, line_start, line_end, branches, default_branch } => {
                flush_pending(&mut out, &mut pending, g);
                proof {
                    assert(decreases_to!(orig => orig[k as int]));
                    assert(decreases_to!(orig[k as int] => orig[k as int]->branches));
                    assert(orig[k as int]->branches == branches);
                    assert(decreases_to!(branches => branches@));
                    assert(decreases_to!(stmts@ => branches@));
                }
                let nbr = compact_branches(branches, g);
                let nd = match default_branch {
                    Some(d) => {
                        proof {
                            assert(decreases_to!(orig => orig[k as int]));
                            assert(decreases_to!(orig[k as int] => orig[k as int]->default_branch));
                            assert(decreases_to!(orig[k as int]->default_branch => orig[k as int]->default_branch->0));
                            assert(orig[k as int]->default_branch->0 == d);
                            assert(decreases_to!(d => d@));
                            assert(decreases_to!(stmts@ => d@));
                        }
                        Some(compact_ast(d, g))
                    },
                    None => None,
                };
                push_ast(&mut out, AstNode::Decision { text, line_start, line_end, branches: nbr, default_branch: nd });
                assert(pend_v(pending@) =~= Seq::<Pend>::empty());
            },
        }
        k += 1;
    }
    assert(k == orig.len());
    flush_pending(&mut out, &mut pending, g);
    out
}

proof fn lemma_asts_v_index(s: Seq<AstNode>, n: int, k: int)
    requires 0 <= k < n <= s.len(),
    ensures asts_v(s, n)[k] == ast_v(s[k]), asts_v(s, n).len() == n,
    decreases n,
{
    lemma_asts_v_len(s, n);
    if k < n - 1 {
        lemma_asts_v_index(s, n - 1, k);
    }
}

proof fn lemma_asts_v_len(s: Seq<AstNode>, n: int)
    requires 0 <= n <= s.len(),
    ensures asts_v(s, n).len() == n,
    decreases n,
{
    if n > 0 {
        lemma_asts_v_len(s, n - 1);
    }
}

fn compact_branches(branches: Vec<Branch>, g: usize) -> (r: Vec<Branch>)
    requires g >= 1,
    ensures br_v(r) == ca_branches(br_v(branches), br_v(branches).len() as int, g as int),
    decreases branches@,
{
    let ghost orig = branches@;
    let ghost bv = br_v(branches);
    let _n0 = branches.len();
    proof { lemma_branches_v_len(orig, orig.len() as int); }
    let mut rest = branches;
    let mut out: Vec<Branch> = Vec::new();
    let mut k: usize = 0;
    assert(br_v(out) =~= Seq::<(Seq<char>, Seq<AstV>)>::empty());
    assert(orig.skip(0) =~= orig);
    while rest.len() > 0
        invariant
            g >= 1, k <= orig.len(), rest@ == orig.skip(k as int), bv == branches_v(orig, orig.len() as int),
            bv.len() == orig.len(), orig == branches@, orig.len() <= usize::MAX,
            br_v(out) == ca_branches(bv, k as int, g as int),
        decreases rest@.len(),
    {
        let b = rest.remove(0);
        assert(b == orig[k as int]);
        assert(rest@ =~= orig.skip(k + 1));
        proof { lemma_branches_v_index(orig, orig.len() as int, k as int); }
        let Branch { label, body } = b;
        proof {
            assert(decreases_to!(orig => orig[k as int]));
            assert(decreases_to!(orig[k as int] => orig[k as int].body));
            assert(orig[k as int].body == body);
            assert(decreases_to!(body => body@));
            assert(decreases_to!(branches@ => body@));
        }
        let nb = compact_ast(body, g);
        push_branch(&mut out, Branch { label, body: nb });
        k += 1;
    }
    assert(k == orig.len());
    out
}

proof fn lemma_branches_v_index(s: Seq<Branch>, n: int, k: int)
    requires 0 <= k < n <= s.len(),
    ensures branches_v(s, n)[k] == (s[k].label@, list_v(s[k].body)),
    decreases n,
{
    lemma_branches_v_len(s, n);
    if k < n - 1 {
        lemma_branches_v_index(s, n - 1, k);
    }
}

proof fn lemma_branches_v_len(s: Seq<Branch>, n: int)
    requires 0 <= n <= s.len(),
    ensures branches_v(s, n).len() == n,
    decreases n,
{
    if n > 0 {
        lemma_branches_v_len(s, n - 1);
    }
}

/// The number of statements and branches in a statement.
pub open spec fn a_size(a: AstV) -> int
    decreases a, 0int,
{
    match a {
        AstV::Process { .. } => 1,
        AstV::Function { body, .. } => 1 + l_size(body, body.len() as int),
        AstV::Loop { body, .. } => 1 + l_size(body, body.len() as int),
        AstV::Decision { branches, default_branch, .. } => 1 + b_size(branches, branches.len() as int)
            + match default_branch { Some(d) => 1 + l_size(d, d.len() as int), None => 1 },
    }
}

pub open spec fn l_size(s: Seq<AstV>, k: int) -> int
    decreases s, k,
{
    if k <= 0 || k > s.len() { 0 } else { l_size(s, k - 1) + a_size(s[k - 1]) }
}

pub open spec fn b_size(b: Seq<(Seq<char>, Seq<AstV>)>, k: int) -> int
    decreases b, k,
{
    if k <= 0 || k > b.len() { 0 } else { b_size(b, k - 1) + 1 + l_size(b[k - 1].1, b[k - 1].1.len() as int) }
}

proof fn lemma_a_size_pos(a: AstV)
    ensures a_size(a) >= 1,
    decreases a, 0int,
{
    match a {
        AstV::Process { .. } => {},
        AstV::Function { body, .. } => { lemma_l_size_nonneg(body, body.len() as int); },
        AstV::Loop { body, .. } => { lemma_l_size_nonneg(body, body.len() as int); },
        AstV::Decision { branches, default_branch, .. } => {
            lemma_b_size_nonneg(branches, branches.len() as int);
            match default_branch { Some(d) => { lemma_l_size_nonneg(d, d.len() as int); }, None => {} }
        },
    }
}

proof fn lemma_l_size_nonneg(s: Seq<AstV>, k: int)
    ensures l_size(s, k) >= 0, 0 <= k <= s.len() ==> l_size(s, k) >= k,
    decreases s, k,
{
    if 0 < k <= s.len() {
        lemma_l_size_nonneg(s, k - 1);
        lemma_a_size_pos(s[k - 1]);
    }
}

proof fn lemma_b_size_nonneg(b: Seq<(Seq<char>, Seq<AstV>)>, k: int)
    ensures b_size(b, k) >= 0, 0 <= k <= b.len() ==> b_size(b, k) >= k,
    decreases b, k,
{
    if 0 < k <= b.len() {
        lemma_b_size_nonneg(b, k - 1);
        lemma_l_size_nonneg(b[k - 1].1, b[k - 1].1.len() as int);
    }
}

proof fn lemma_l_size_mono(s: Seq<AstV>, a: int, b: int)
    requires 0 <= a <= b <= s.len(),
    ensures l_size(s, a) <= l_size(s, b),
    decreases b - a,
{
    if a < b {
        lemma_l_size_mono(s, a, b - 1);
        lemma_a_size_pos(s[b - 1]);
    }
}

/// Branch `i` and everything before it fit in the branches' size.
proof fn lemma_b_size_branch(b: Seq<(Seq<char>, Seq<AstV>)>, k: int, i: int)
    requires 0 <= i < k <= b.len(),
    ensures b_size(b, k) >= b_size(b, i) + 1 + l_size(b[i].1, b[i].1.len() as int) + (k - i - 1),
        b_size(b, i) >= i,
    decreases k,
{
    lemma_b_size_nonneg(b, i);
    if k - 1 > i {
        lemma_b_size_branch(b, k - 1, i);
        lemma_l_size_nonneg(b[k - 1].1, b[k - 1].1.len() as int);
    }
}

/// `add_node` on plain values: the node is stored with its text cut to
/// 180 characters.
pub open spec fn r_add(g: GState, shape: Shape, text: Seq<char>, ls: Option<usize>, le: Option<usize>, lane: i32) -> (GState, usize) {
    let id = g.next_id as usize;
    (GState {
        nodes: g.nodes.push(NodeView { id, shape, text: spec_clip_text(text), line_start: ls, line_end: le, lane, level: None }),
        edges: g.edges,
        next_id: g.next_id + 1,
    }, id)
}

pub type RRes = (GState, Seq<ExitV>);

/// The first `k` statements of `s` walked with exits `cur` flowing in.
pub open spec fn rw_list(g: GState, s: Seq<AstV>, k: int, cur: Seq<ExitV>, lane: i32) -> RRes
    decreases s, k,
{
    if k <= 0 || k > s.len() {
        (g, cur)
    } else {
        let r = rw_list(g, s, k - 1, cur, lane);
        rw_stmt(r.0, s[k - 1], r.1, lane)
    }
}

/// One statement: a node for it, entered by `cur`; loops get `next`
/// edges back from their body and leave by `done`; decisions leave by
/// their branches' exits and a `no`, `else` or bare exit.
pub open spec fn rw_stmt(g: GState, a: AstV, cur: Seq<ExitV>, lane: i32) -> RRes
    decreases a, 0int,
{
    match a {
        AstV::Process { text, line_start, line_end } => {
            let (g1, nid) = r_add(g, Shape::Process, text, Some(line_start), Some(line_end), lane);
            (g_connect(g1, cur, nid), bare_exit(nid))
        },
        AstV::Function { header, line_start, line_end, body } => {
            let (g1, fid) = r_add(g, Shape::Process, header, Some(line_start), Some(line_end), lane);
            let g2 = g_connect(g1, cur, fid);
            if body.len() == 0 { (g2, bare_exit(fid)) } else { rw_list(g2, body, body.len() as int, one_exit(fid, "enter"@), lane.wrapping_add(1)) }
        },
        AstV::Loop { header, line_start, line_end, body } => {
            let (g1, lid) = r_add(g, Shape::Loop, header, Some(line_start), Some(line_end), lane);
            let g2 = g_connect(g1, cur, lid);
            let b = if body.len() == 0 { (g2, one_exit(lid, "enter"@)) } else { rw_list(g2, body, body.len() as int, one_exit(lid, "enter"@), lane) };
            (GState { edges: b.0.edges + next_edges(b.1, lid), ..b.0 }, one_exit(lid, "done"@))
        },
        AstV::Decision { text, line_start, line_end, branches, default_branch } => {
            let (g1, did) = r_add(g, Shape::Decision, text, Some(line_start), Some(line_end), lane);
            let g2 = g_connect(g1, cur, did);
            let r = rw_branches(g2, branches, branches.len() as int, did, lane);
            match default_branch {
                Some(d) => if d.len() == 0 {
                    (r.0, r.1 + one_exit(did, "else"@))
                } else {
                    let e = rw_list(r.0, d, d.len() as int, one_exit(did, "else"@), lane.wrapping_add(1));
                    (e.0, r.1 + e.1)
                },
                None => if branches.len() == 1 { (r.0, r.1 + one_exit(did, "no"@)) } else { (r.0, r.1 + bare_exit(did)) },
            }
        },
    }
}

/// The lane of branch `bi` of a decision in lane `lane`, in `i32`
/// arithmetic that wraps.
pub open spec fn branch_lane(lane: i32, bi: int) -> i32 {
    if bi == 0 { lane.wrapping_sub(1) } else { lane.wrapping_add(bi as i32).wrapping_sub(1) }
}

/// The first `k` branches of decision `did`, their exits gathered.
pub open spec fn rw_branches(g: GState, b: Seq<(Seq<char>, Seq<AstV>)>, k: int, did: usize, lane: i32) -> RRes
    decreases b, k,
{
    if k <= 0 || k > b.len() {
        (g, Seq::empty())
    } else {
        let r = rw_branches(g, b, k - 1, did, lane);
        let (lbl, body) = b[k - 1];
        if body.len() == 0 {
            (r.0, r.1 + one_exit(did, lbl))
        } else {
            let e = rw_list(r.0, body, body.len() as int, one_exit(did, lbl), branch_lane(lane, k - 1));
            (e.0, r.1 + e.1)
        }
    }
}

/// A loop returns to its header: every exit of its walked body is joined to
/// the loop node by a `next` edge, and the loop itself is left by `done`.
pub proof fn lemma_loop_body_returns(g: GState, header: Seq<char>, ls: usize, le: usize, body: Seq<AstV>, cur: Seq<ExitV>, lane: i32)
    ensures ({
        let lid = g.next_id as usize;
        let g2 = g_connect(r_add(g, Shape::Loop, header, Some(ls), Some(le), lane).0, cur, lid);
        let ex = rw_list(g2, body, body.len() as int, one_exit(lid, "enter"@), lane).1;
        let r = rw_stmt(g, AstV::Loop { header, line_start: ls, line_end: le, body }, cur, lane);
        &&& forall|i: int| 0 <= i < ex.len() ==>
            r.0.edges.contains(EdgeView { from: (#[trigger] ex[i]).0, to: lid, label: Some("next"@), back_edge: false })
        &&& r.1 == one_exit(lid, "done"@)
    }),
{
    let lid = g.next_id as usize;
    let g2 = g_connect(r_add(g, Shape::Loop, header, Some(ls), Some(le), lane).0, cur, lid);
    let b = rw_list(g2, body, body.len() as int, one_exit(lid, "enter"@), lane);
    lemma_next_edges_each(b.0.edges, b.1, lid);
}

/// Every branch of a decision flows on: the exits of each branch's walked
/// body (the branch exit itself when the body is empty) are exits of the
/// branches taken together.
pub proof fn lemma_branch_exits_kept(g: GState, b: Seq<(Seq<char>, Seq<AstV>)>, k: int, did: usize, lane: i32, j: int)
    requires 0 <= j < k <= b.len(),
    ensures ({
        let pre = rw_branches(g, b, j, did, lane);
        exits_among(rw_list(pre.0, b[j].1, b[j].1.len() as int, one_exit(did, b[j].0), branch_lane(lane, j)).1,
            rw_branches(g, b, k, did, lane).1)
    }),
    decreases k,
{
    let r = rw_branches(g, b, k - 1, did, lane);
    let body = b[k - 1].1;
    let e = rw_list(r.0, body, body.len() as int, one_exit(did, b[k - 1].0), branch_lane(lane, k - 1));
    lemma_among_concat(r.1, e.1);
    if j < k - 1 {
        lemma_branch_exits_kept(g, b, k - 1, did, lane, j);
        let pre = rw_branches(g, b, j, did, lane);
        lemma_among_trans(rw_list(pre.0, b[j].1, b[j].1.len() as int, one_exit(did, b[j].0), branch_lane(lane, j)).1, r.1, r.1 + e.1);
    }
}

/// A decision flows on through all its ways out: the exits of its branches,
/// of its `else` body (the `else` exit itself when that body is empty), and,
/// without an `else`, a `no` exit for a lone branch or a bare one.
pub proof fn lemma_decision_exits(g: GState, text: Seq<char>, ls: usize, le: usize, branches: Seq<(Seq<char>, Seq<AstV>)>,
    default_branch: Option<Seq<AstV>>, cur: Seq<ExitV>, lane: i32)
    ensures ({
        let did = g.next_id as usize;
        let g2 = g_connect(r_add(g, Shape::Decision, text, Some(ls), Some(le), lane).0, cur, did);
        let rb = rw_branches(g2, branches, branches.len() as int, did, lane);
        let r = rw_stmt(g, AstV::Decision { text, line_start: ls, line_end: le, branches, default_branch }, cur, lane);
        &&& exits_among(rb.1, r.1)
        &&& (default_branch matches Some(d) ==>
                exits_among(rw_list(rb.0, d, d.len() as int, one_exit(did, "else"@), lane.wrapping_add(1)).1, r.1))
        &&& (default_branch is None && branches.len() == 1 ==> r.1.contains((did, Some("no"@))))
        &&& (default_branch is None && branches.len() != 1 ==> r.1.contains((did, None::<Seq<char>>)))
    }),
{
    let did = g.next_id as usize;
    let g2 = g_connect(r_add(g, Shape::Decision, text, Some(ls), Some(le), lane).0, cur, did);
    let rb = rw_branches(g2, branches, branches.len() as int, did, lane);
    match default_branch {
        Some(d) => {
            let e = rw_list(rb.0, d, d.len() as int, one_exit(did, "else"@), lane.wrapping_add(1));
            lemma_among_concat(rb.1, e.1);
        },
        None => {
            let x = if branches.len() == 1 { one_exit(did, "no"@) } else { bare_exit(did) };
            lemma_among_concat(rb.1, x);
            assert((rb.1 + x)[rb.1.len() as int] == x[0]);
        },
    }
}

proof fn lemma_radd_connect_grows(g: GState, shape: Shape, text: Seq<char>, ls: Option<usize>, le: Option<usize>, lane: i32, cur: Seq<ExitV>)
    requires 0 <= g.next_id,
    ensures ({
        let (g1, id) = r_add(g, shape, text, ls, le, lane);
        grows(g, g_connect(g1, cur, id)) && g_connect(g1, cur, id).next_id == g.next_id + 1
    }),
{
    let (g1, id) = r_add(g, shape, text, ls, le, lane);
    assert(g1.nodes.take(g.nodes.len() as int) =~= g.nodes);
    let g2 = g_connect(g1, cur, id);
    assert(g2.edges.take(g.edges.len() as int) =~= g.edges);
    assert(g2.nodes.take(g.nodes.len() as int) =~= g.nodes);
    assert forall|j: int| g2.next_id <= usize::MAX + 1 && g.edges.len() <= j < g2.edges.len() implies (#[trigger] g2.edges[j]).to >= g.next_id by {
        assert(g2.edges[j] == spec_connect_edges(cur, id, None)[j - g.edges.len()]);
    }
}

/// The walk of one statement only adds to the graph.
pub proof fn lemma_rw_stmt_grows(g: GState, a: AstV, cur: Seq<ExitV>, lane: i32)
    requires 0 <= g.next_id,
    ensures grows(g, rw_stmt(g, a, cur, lane).0),
    decreases a, 0int,
{
    match a {
        AstV::Process { text, line_start, line_end } => {
            lemma_radd_connect_grows(g, Shape::Process, text, Some(line_start), Some(line_end), lane, cur);
        },
        AstV::Function { header, line_start, line_end, body } => {
            lemma_radd_connect_grows(g, Shape::Process, header, Some(line_start), Some(line_end), lane, cur);
            let (g1, fid) = r_add(g, Shape::Process, header, Some(line_start), Some(line_end), lane);
            let g2 = g_connect(g1, cur, fid);
            if body.len() != 0 {
                lemma_rw_list_grows(g2, body, body.len() as int, one_exit(fid, "enter"@), lane.wrapping_add(1));
                lemma_grows_trans(g, g2, rw_list(g2, body, body.len() as int, one_exit(fid, "enter"@), lane.wrapping_add(1)).0);
            }
        },
        AstV::Loop { header, line_start, line_end, body } => {
            lemma_radd_connect_grows(g, Shape::Loop, header, Some(line_start), Some(line_end), lane, cur);
            let (g1, lid) = r_add(g, Shape::Loop, header, Some(line_start), Some(line_end), lane);
            let g2 = g_connect(g1, cur, lid);
            let b = rw_list(g2, body, body.len() as int, one_exit(lid, "enter"@), lane);
            lemma_rw_list_grows(g2, body, body.len() as int, one_exit(lid, "enter"@), lane);
            lemma_grows_trans(g, g2, b.0);
            let r = GState { edges: b.0.edges + next_edges(b.1, lid), ..b.0 };
            assert forall|j: int| r.next_id <= usize::MAX + 1 && g.edges.len() <= j < r.edges.len() implies (#[trigger] r.edges[j]).to >= g.next_id by {
                if j < b.0.edges.len() {
                    assert(r.edges[j] == b.0.edges[j]);
                } else {
                    assert(r.edges[j] == next_edges(b.1, lid)[j - b.0.edges.len()]);
                }
            }
            assert(r.nodes.take(g.nodes.len() as int) =~= g.nodes) by {
                assert forall|i: int| 0 <= i < g.nodes.len() implies r.nodes[i] == g.nodes[i] by {
                    assert(b.0.nodes.take(g.nodes.len() as int)[i] == g.nodes[i]);
                }
            }
            assert(r.edges.take(g.edges.len() as int) =~= g.edges) by {
                assert forall|i: int| 0 <= i < g.edges.len() implies r.edges[i] == g.edges[i] by {
                    assert(b.0.edges.take(g.edges.len() as int)[i] == g.edges[i]);
                }
            }
        },
        AstV::Decision { text, line_start, line_end, branches, default_branch } => {
            lemma_radd_connect_grows(g, Shape::Decision, text, Some(line_start), Some(line_end), lane, cur);
            let (g1, did) = r_add(g, Shape::Decision, text, Some(line_start), Some(line_end), lane);
            let g2 = g_connect(g1, cur, did);
            let r = rw_branches(g2, branches, branches.len() as int, did, lane);
            lemma_rw_branches_grows(g2, branches, branches.len() as int, did, lane);
            lemma_grows_trans(g, g2, r.0);
            match default_branch {
                Some(d) => if d.len() != 0 {
                    lemma_rw_list_grows(r.0, d, d.len() as int, one_exit(did, "else"@), lane.wrapping_add(1));
                    lemma_grows_trans(g, r.0, rw_list(r.0, d, d.len() as int, one_exit(did, "else"@), lane.wrapping_add(1)).0);
                },
                None => {},
            }
        },
    }
}

/// Walking statements only adds to the graph.
pub proof fn lemma_rw_list_grows(g: GState, s: Seq<AstV>, k: int, cur: Seq<ExitV>, lane: i32)
    requires 0 <= g.next_id,
    ensures grows(g, rw_list(g, s, k, cur, lane).0),
    decreases s, k,
{
    if k <= 0 || k > s.len() {
        lemma_grows_refl(g);
    } else {
        lemma_rw_list_grows(g, s, k - 1, cur, lane);
        let r = rw_list(g, s, k - 1, cur, lane);
        assert(decreases_to!(s => s[k - 1]));
        lemma_rw_stmt_grows(r.0, s[k - 1], r.1, lane);
        lemma_grows_trans(g, r.0, rw_stmt(r.0, s[k - 1], r.1, lane).0);
    }
}

/// Walking the branches of a decision only adds to the graph.
pub proof fn lemma_rw_branches_grows(g: GState, b: Seq<(Seq<char>, Seq<AstV>)>, k: int, did: usize, lane: i32)
    requires 0 <= g.next_id,
    ensures grows(g, rw_branches(g, b, k, did, lane).0),
    decreases b, k,
{
    if k <= 0 || k > b.len() {
        lemma_grows_refl(g);
    } else {
        lemma_rw_branches_grows(g, b, k - 1, did, lane);
        let r = rw_branches(g, b, k - 1, did, lane);
        let (lbl, body) = b[k - 1];
        if body.len() != 0 {
            assert(decreases_to!(b => b[k - 1]));
            assert(decreases_to!(b[k - 1] => b[k - 1].1));
            lemma_rw_list_grows(r.0, body, body.len() as int, one_exit(did, lbl), branch_lane(lane, k - 1));
            lemma_grows_trans(g, r.0, rw_list(r.0, body, body.len() as int, one_exit(did, lbl), branch_lane(lane, k - 1)).0);
        }
    }
}

/// Statements follow one another: every exit of the first `k` statements
/// is joined, with its label, to the node of statement `k + 1`.
pub proof fn lemma_rw_list_chains(g: GState, s: Seq<AstV>, k: int, cur: Seq<ExitV>, lane: i32)
    requires 0 <= g.next_id, 0 <= k < s.len(),
    ensures ({
        let r = rw_list(g, s, k, cur, lane);
        forall|i: int| 0 <= i < r.1.len() ==> rw_list(g, s, k + 1, cur, lane).0.edges.contains(
            EdgeView { from: (#[trigger] r.1[i]).0, to: r.0.next_id as usize, label: r.1[i].1, back_edge: false })
    }),
{
    lemma_rw_list_grows(g, s, k, cur, lane);
    let r = rw_list(g, s, k, cur, lane);
    lemma_rw_entered(r.0, s[k], r.1, lane);
}

/// Every statement is entered by all the exits that flow into it: for each
/// incoming exit there is an edge, with that exit's label, to the
/// statement's node.
pub proof fn lemma_rw_entered(g: GState, a: AstV, cur: Seq<ExitV>, lane: i32)
    requires 0 <= g.next_id,
    ensures forall|i: int| 0 <= i < cur.len() ==> rw_stmt(g, a, cur, lane).0.edges.contains(
        EdgeView { from: (#[trigger] cur[i]).0, to: g.next_id as usize, label: cur[i].1, back_edge: false }),
{
    let id = g.next_id as usize;
    let r = rw_stmt(g, a, cur, lane);
    let (shape, text, ls, le) = match a {
        AstV::Process { text, line_start, line_end } => (Shape::Process, text, line_start, line_end),
        AstV::Function { header, line_start, line_end, .. } => (Shape::Process, header, line_start, line_end),
        AstV::Loop { header, line_start, line_end, .. } => (Shape::Loop, header, line_start, line_end),
        AstV::Decision { text, line_start, line_end, .. } => (Shape::Decision, text, line_start, line_end),
    };
    let g2 = g_connect(r_add(g, shape, text, Some(ls), Some(le), lane).0, cur, id);
    lemma_connect_has(r_add(g, shape, text, Some(ls), Some(le), lane).0, cur, id);
    assert(g2.next_id == g.next_id + 1);
    assert forall|i: int| 0 <= i < cur.len() implies r.0.edges.contains(
        EdgeView { from: (#[trigger] cur[i]).0, to: id, label: cur[i].1, back_edge: false }) by {
        let e = EdgeView { from: cur[i].0, to: id, label: cur[i].1, back_edge: false };
        match a {
            AstV::Process { .. } => {},
            AstV::Function { body, .. } => {
                if body.len() != 0 {
                    lemma_rw_list_grows(g2, body, body.len() as int, one_exit(id, "enter"@), lane.wrapping_add(1));
                    lemma_grows_keeps_edge(g2, rw_list(g2, body, body.len() as int, one_exit(id, "enter"@), lane.wrapping_add(1)).0, e);
                }
            },
            AstV::Loop { body, .. } => {
                lemma_rw_list_grows(g2, body, body.len() as int, one_exit(id, "enter"@), lane);
                let b = rw_list(g2, body, body.len() as int, one_exit(id, "enter"@), lane);
                lemma_grows_keeps_edge(g2, b.0, e);
                lemma_append_keeps_edge(b.0.edges, next_edges(b.1, id), e);
            },
            AstV::Decision { branches, default_branch, .. } => {
                lemma_rw_branches_grows(g2, branches, branches.len() as int, id, lane);
                let rb = rw_branches(g2, branches, branches.len() as int, id, lane);
                lemma_grows_keeps_edge(g2, rb.0, e);
                match default_branch {
                    Some(d) => {
                        lemma_rw_list_grows(rb.0, d, d.len() as int, one_exit(id, "else"@), lane.wrapping_add(1));
                        lemma_grows_keeps_edge(rb.0, rw_list(rb.0, d, d.len() as int, one_exit(id, "else"@), lane.wrapping_add(1)).0, e);
                    },
                    None => {},
                }
            },
        }
    }
}

pub open spec fn gs3(nodes: Seq<Node>, edges: Seq<Edge>, next_id: usize) -> GState {
    GState { nodes: nodes_view(nodes), edges: edges_view(edges), next_id: next_id as int }
}

/// Room for `size` more node ids within `usize`.
pub open spec fn rw_pre(nodes: Seq<Node>, edges: Seq<Edge>, next_id: usize, size: int, inc: Seq<Exit>) -> bool {
    &&& graph_wf(nodes, edges, next_id)
    &&& exits_ok(exits_view(inc), next_id)
    &&& next_id + size < usize::MAX
}

pub open spec fn rw_post(n0: usize, nodes: Seq<Node>, edges: Seq<Edge>, next_id: usize, size: int, out: Seq<Exit>) -> bool {
    &&& graph_wf(nodes, edges, next_id)
    &&& n0 <= next_id <= n0 + size
    &&& exits_ok(exits_view(out), next_id)
}

/// Appends a node with the next id, its text cut to 180 characters.
pub fn add_node(
    nodes: &mut Vec<Node>,
    next_id: &mut usize,
    shape: Shape,
    text: String,
    line_start: Option<usize>,
    line_end: Option<usize>,
    lane: i32,
) -> (id: usize)
    requires *old(next_id) < usize::MAX,
    ensures
        id == *old(next_id),
        *final(next_id) == id + 1,
        nodes_view(final(nodes)@) == nodes_view(old(nodes)@).push(NodeView {
            id, shape, text: spec_clip_text(text@), line_start, line_end, lane, level: None,
        }),
        final(nodes)@.len() == old(nodes)@.len() + 1,
        forall|k: int| 0 <= k < old(nodes)@.len() ==> (#[trigger] final(nodes)@[k]).id == old(nodes)@[k].id,
        final(nodes)@.last().id == id,
{
    push_node(nodes, next_id, shape, clip_text(text), line_start, line_end, lane)
}

/// Appends an edge from every exit to `dst`, labelled with the exit's
/// label or else `default_label`.
pub fn connect(edges: &mut Vec<Edge>, incoming: &[Exit], dst: usize, default_label: Option<&str>)
    ensures
        edges_view(final(edges)@) == edges_view(old(edges)@) + spec_connect_edges(exits_view(incoming@), dst,
            match default_label { Some(s) => Some(s@), None => None }),
{
    connect_edges(edges, incoming, dst, default_label)
}

fn add_node_wf(
    nodes: &mut Vec<Node>, edges: &Vec<Edge>, next_id: &mut usize, shape: Shape, text: String,
    line_start: Option<usize>, line_end: Option<usize>, lane: i32,
) -> (id: usize)
    requires graph_wf(old(nodes)@, edges@, *old(next_id)), *old(next_id) < usize::MAX,
    ensures
        graph_wf(final(nodes)@, edges@, *final(next_id)),
        id == *old(next_id), *final(next_id) == id + 1,
        gs3(final(nodes)@, edges@, *final(next_id))
            == r_add(gs3(old(nodes)@, edges@, *old(next_id)), shape, text@, line_start, line_end, lane).0,
{
    let ghost n0 = nodes@;
    let id = add_node(nodes, next_id, shape, text, line_start, line_end, lane);
    proof {
        assert forall|k: int| 0 <= k < nodes@.len() implies (#[trigger] nodes@[k]).id == k + 1 by {
            if k < n0.len() { assert(nodes@[k].id == n0[k].id); }
        }
    }
    id
}

fn connect_wf(nodes: &Vec<Node>, edges: &mut Vec<Edge>, next_id: usize, incoming: &[Exit], dst: usize)
    requires graph_wf(nodes@, old(edges)@, next_id), exits_ok(exits_view(incoming@), next_id), 1 <= dst < next_id,
    ensures
        graph_wf(nodes@, final(edges)@, next_id),
        gs3(nodes@, final(edges)@, next_id) == g_connect(gs3(nodes@, old(edges)@, next_id), exits_view(incoming@), dst),
{
    let ghost e0 = edges@;
    connect(edges, incoming, dst, None);
    proof {
        let add = spec_connect_edges(exits_view(incoming@), dst, None);
        assert(edges_view(edges@).len() == edges@.len());
        assert(edges@.len() == e0.len() + incoming@.len());
        assert forall|k: int| 0 <= k < edges@.len() implies
            1 <= (#[trigger] edges@[k]).from < next_id && 1 <= edges@[k].to < next_id by {
            assert(edges_view(edges@)[k] == edges@[k]@);
            if k < e0.len() {
                assert(edges_view(e0)[k] == e0[k]@);
            } else {
                let j = k - e0.len();
                assert(add[j] == edges_view(edges@)[k]);
                assert(exits_view(incoming@)[j] == incoming@[j]@);
            }
        }
    }
}

fn next_edges_wf(nodes: &Vec<Node>, edges: &mut Vec<Edge>, next_id: usize, exits: &Vec<Exit>, lid: usize)
    requires graph_wf(nodes@, old(edges)@, next_id), exits_ok(exits_view(exits@), next_id), 1 <= lid < next_id,
    ensures
        graph_wf(nodes@, final(edges)@, next_id),
        edges_view(final(edges)@) == edges_view(old(edges)@) + next_edges(exits_view(exits@), lid),
{
    let ghost e0 = edges_view(edges@);
    let ghost ev = exits_view(exits@);
    let mut k: usize = 0;
    while k < exits.len()
        invariant
            k <= exits.len(), graph_wf(nodes@, edges@, next_id), 1 <= lid < next_id, ev == exits_view(exits@),
            exits_ok(ev, next_id),
            edges_view(edges@) == e0 + next_edges(ev.take(k as int), lid),
        decreases exits.len() - k,
    {
        assert(ev[k as int] == exits@[k as int]@);
        let ghost before = edges_view(edges@);
        edges.push(Edge { from: exits[k].node_id, to: lid, label: Some(String::from_str("next")), back_edge: false });
        assert(edges_view(edges@) =~= before.push(edges@.last()@));
        k += 1;
        assert(next_edges(ev.take(k as int), lid) =~= next_edges(ev.take(k - 1), lid).push(edges@.last()@));
    }
    assert(ev.take(exits.len() as int) =~= ev);
}

/// Walks the statements (`rw_list`), adding their nodes and edges; returns
/// the exits of the block.
pub fn walk_block(
    nodes: &mut Vec<Node>,
    edges: &mut Vec<Edge>,
    next_id: &mut usize,
    stmts: &[AstNode],
    incoming: Vec<Exit>,
    lane: i32,
) -> (r: Vec<Exit>)
    requires rw_pre(old(nodes)@, old(edges)@, *old(next_id), l_size(asts_v(stmts@, stmts@.len() as int), stmts@.len() as int), incoming@),
    ensures
        rw_post(*old(next_id), final(nodes)@, final(edges)@, *final(next_id),
            l_size(asts_v(stmts@, stmts@.len() as int), stmts@.len() as int), r@),
        (gs3(final(nodes)@, final(edges)@, *final(next_id)), exits_view(r@))
            == rw_list(gs3(old(nodes)@, old(edges)@, *old(next_id)), asts_v(stmts@, stmts@.len() as int),
                stmts@.len() as int, exits_view(incoming@), lane),
    decreases stmts@, 1int,
{
    let ghost s = asts_v(stmts@, stmts@.len() as int);
    let ghost n0 = *next_id;
    let ghost g0 = gs3(nodes@, edges@, *next_id);
    proof { lemma_asts_v_len(stmts@, stmts@.len() as int); lemma_l_size_nonneg(s, s.len() as int); }
    let mut cur = incoming;
    let mut k: usize = 0;
    while k < stmts.len()
        invariant
            k <= stmts@.len(), s == asts_v(stmts@, stmts@.len() as int), s.len() == stmts@.len(),
            graph_wf(nodes@, edges@, *next_id), exits_ok(exits_view(cur@), *next_id),
            n0 <= *next_id <= n0 + l_size(s, k as int),
            n0 + l_size(s, s.len() as int) < usize::MAX,
            rw_list(g0, s, k as int, exits_view(incoming@), lane) == (gs3(nodes@, edges@, *next_id), exits_view(cur@)),
        decreases stmts@.len() - k,
    {
        proof {
            lemma_asts_v_index(stmts@, stmts@.len() as int, k as int);
            lemma_l_size_mono(s, k + 1, s.len() as int);
            lemma_l_size_nonneg(s, k as int);
        }
        cur = walk_stmt(nodes, edges, next_id, &stmts[k], cur, lane);
        k += 1;
    }
    cur
}

fn walk_stmt(
    nodes: &mut Vec<Node>,
    edges: &mut Vec<Edge>,
    next_id: &mut usize,
    st: &AstNode,
    cur: Vec<Exit>,
    lane: i32,
) -> (r: Vec<Exit>)
    requires rw_pre(old(nodes)@, old(edges)@, *old(next_id), a_size(ast_v(*st)), cur@),
    ensures
        rw_post(*old(next_id), final(nodes)@, final(edges)@, *final(next_id), a_size(ast_v(*st)), r@),
        (gs3(final(nodes)@, final(edges)@, *final(next_id)), exits_view(r@))
            == rw_stmt(gs3(old(nodes)@, old(edges)@, *old(next_id)), ast_v(*st), exits_view(cur@), lane),
    decreases *st, 0int,
{
    match st {
        AstNode::Process { text, line_start, line_end } => {
            let nid = add_node_wf(nodes, edges, next_id, Shape::Process, text.clone(), Some(*line_start), Some(*line_end), lane);
            connect_wf(nodes, edges, *next_id, &cur, nid);
            exit_bare(nid)
        },
        AstNode::Function { header, line_start, line_end, body } => {
            proof { lemma_asts_v_len(body@, body@.len() as int); lemma_l_size_nonneg(list_v(*body), body@.len() as int); }
            let fid = add_node_wf(nodes, edges, next_id, Shape::Process, header.clone(), Some(*line_start), Some(*line_end), lane);
            connect_wf(nodes, edges, *next_id, &cur, fid);
            if body.len() == 0 {
                exit_bare(fid)
            } else {
                proof {
                    assert(decreases_to!(*st => (*st)->Function_body));
                    assert(decreases_to!(*body => body@));
                }
                walk_block(nodes, edges, next_id, body.as_slice(), exit_with(fid, "enter"), lane.wrapping_add(1))
            }
        },
        AstNode::Loop { header, line_start, line_end, body } => {
            proof { lemma_asts_v_len(body@, body@.len() as int); lemma_l_size_nonneg(list_v(*body), body@.len() as int); }
            let lid = add_node_wf(nodes, edges, next_id, Shape::Loop, header.clone(), Some(*line_start), Some(*line_end), lane);
            connect_wf(nodes, edges, *next_id, &cur, lid);
            let body_out = if body.len() == 0 {
                exit_with(lid, "enter")
            } else {
                proof {
                    assert(decreases_to!(*st => (*st)->Loop_body));
                    assert(decreases_to!(*body => body@));
                }
                walk_block(nodes, edges, next_id, body.as_slice(), exit_with(lid, "enter"), lane)
            };
            next_edges_wf(nodes, edges, *next_id, &body_out, lid);
            exit_with(lid, "done")
        },
        AstNode::Decision { text, line_start, line_end, branches, default_branch } => {
            let ghost bv = br_v(*branches);
            proof {
                lemma_branches_v_len(branches@, branches@.len() as int);
                lemma_b_size_nonneg(bv, bv.len() as int);
                match default_branch {
                    Some(d) => {
                        lemma_asts_v_len(d@, d@.len() as int);
                        lemma_l_size_nonneg(list_v(*d), d@.len() as int);
                    },
                    None => {},
                }
                assert(a_size(ast_v(*st)) >= 2 + b_size(bv, bv.len() as int));
            }
            let did = add_node_wf(nodes, edges, next_id, Shape::Decision, text.clone(), Some(*line_start), Some(*line_end), lane);
            connect_wf(nodes, edges, *next_id, &cur, did);
            let ghost g2 = gs3(nodes@, edges@, *next_id);
            let ghost n1 = *next_id;
            let mut out: Vec<Exit> = Vec::new();
            assert(exits_view(out@) =~= Seq::<ExitV>::empty());
            let mut j: usize = 0;
            while j < branches.len()
                invariant
                    j <= branches@.len(), bv == br_v(*branches), bv.len() == branches@.len(),
                    *st == (AstNode::Decision { text: *text, line_start: *line_start, line_end: *line_end,
                        branches: *branches, default_branch: *default_branch }),
                    graph_wf(nodes@, edges@, *next_id), exits_ok(exits_view(out@), *next_id), 1 <= did < *next_id,
                    n1 <= *next_id <= n1 + b_size(bv, j as int),
                    n1 + b_size(bv, bv.len() as int) < usize::MAX,
                    rw_branches(g2, bv, j as int, did, lane) == (gs3(nodes@, edges@, *next_id), exits_view(out@)),
                decreases branches@.len() - j,
            {
                proof {
                    lemma_branches_v_index(branches@, branches@.len() as int, j as int);
                    lemma_b_size_branch(bv, bv.len() as int, j as int);
                    lemma_b_size_branch(bv, j + 1, j as int);
                    lemma_asts_v_len(branches@[j as int].body@, branches@[j as int].body@.len() as int);
                    lemma_l_size_nonneg(bv[j as int].1, bv[j as int].1.len() as int);
                }
                let blane: i32 = if j == 0 { lane.wrapping_sub(1) } else { lane.wrapping_add(j as i32).wrapping_sub(1) };
                let br = &branches[j];
                let ghost n_before = *next_id;
                if br.body.len() == 0 {
                    let one = exit_owned(did, &chars_of(br.label.as_str()));
                    proof { lemma_exits_ok_concat(exits_view(out@), exits_view(one@), *next_id); }
                    append_exits(&mut out, one);
                } else {
                    proof {
                        let a = *st;
                        assert(decreases_to!(a => a->branches));
                        assert(a->branches == *branches);
                        assert(decreases_to!(*branches => branches@));
                        assert(decreases_to!(branches@ => branches@[j as int]));
                        assert(decreases_to!(branches@[j as int] => branches@[j as int].body));
                        assert(decreases_to!(br.body => br.body@));
                    }
                    let o = walk_block(nodes, edges, next_id, br.body.as_slice(),
                        exit_owned(did, &chars_of(br.label.as_str())), blane);
                    proof {
                        lemma_exits_ok_mono(exits_view(out@), n_before, *next_id);
                        lemma_exits_ok_concat(exits_view(out@), exits_view(o@), *next_id);
                    }
                    append_exits(&mut out, o);
                }
                j += 1;
            }
            let ghost n2 = *next_id;
            match default_branch {
                Some(d) => {
                    proof { lemma_asts_v_len(d@, d@.len() as int); lemma_l_size_nonneg(list_v(*d), d@.len() as int); }
                    if d.len() == 0 {
                        let one = exit_with(did, "else");
                        proof { lemma_exits_ok_concat(exits_view(out@), exits_view(one@), *next_id); }
                        append_exits(&mut out, one);
                    } else {
                        proof {
                            assert(decreases_to!(*st => (*st)->default_branch));
                            assert(decreases_to!((*st)->default_branch => (*st)->default_branch->0));
                            assert(decreases_to!(*d => d@));
                        }
                        let e = walk_block(nodes, edges, next_id, d.as_slice(), exit_with(did, "else"), lane.wrapping_add(1));
                        proof {
                            lemma_exits_ok_mono(exits_view(out@), n2, *next_id);
                            lemma_exits_ok_concat(exits_view(out@), exits_view(e@), *next_id);
                        }
                        append_exits(&mut out, e);
                    }
                },
                None => {
                    let one = if branches.len() == 1 { exit_with(did, "no") } else { exit_bare(did) };
                    proof { lemma_exits_ok_concat(exits_view(out@), exits_view(one@), *next_id); }
                    append_exits(&mut out, one);
                },
            }
            out
        },
    }
}

/// Brace depth change of the first `k` characters of a line, and whether
/// an opening brace was among them (counted from `found`).
pub open spec fn brace_scan(line: Seq<char>, k: int, d: int, found: bool) -> (int, bool)
    decreases k,
{
    if k <= 0 || k > line.len() {
        (d, found)
    } else {
        let (d1, f1) = brace_scan(line, k - 1, d, found);
        if line[k - 1] == '{' { (d1 + 1, true) } else if line[k - 1] == '}' { (d1 - 1, f1) } else { (d1, f1) }
    }
}

/// The lines from index `k` on, each followed by a newline, up to and
/// including the line that closes the first opened brace; and whether a
/// brace was opened at all.
pub open spec fn slice_from(ls: Seq<Seq<char>>, k: int, d: int, found: bool) -> (Seq<char>, bool)
    decreases ls.len() - k,
{
    if k < 0 || k >= ls.len() {
        (Seq::empty(), found)
    } else {
        let (d2, f2) = brace_scan(ls[k], ls[k].len() as int, d, found);
        if f2 && d2 <= 0 {
            (ls[k] + seq!['\n'], true)
        } else {
            let (r, f) = slice_from(ls, k + 1, d2, f2);
            (ls[k] + seq!['\n'] + r, f)
        }
    }
}

/// Index of the first line at or after `k` that declares `fn <name>`.
pub open spec fn find_fn_line(ls: Seq<Seq<char>>, name: Seq<char>, k: int) -> Option<int>
    decreases ls.len() - k,
{
    if k < 0 || k >= ls.len() {
        None
    } else if seq_starts_with(spec_trim_start(ls[k]), "fn "@) && seq_contains(spec_trim_start(ls[k]), "fn "@ + name) {
        Some(k)
    } else {
        find_fn_line(ls, name, k + 1)
    }
}

proof fn lemma_brace_scan_bound(line: Seq<char>, k: int, d: int, found: bool)
    requires 0 <= k <= line.len(),
    ensures d - k <= brace_scan(line, k, d, found).0 <= d + k,
    decreases k,
{
    if k > 0 {
        lemma_brace_scan_bound(line, k - 1, d, found);
    }
}

/// The source text of function `fn_name`: from the line declaring it to
/// the line closing its body.
pub fn extract_function_slice(src: &str, fn_name: &str) -> (r: Result<String, ExtractError>)
    requires src@.len() <= 0x0800_0000,
    ensures ({
        let ls = split_lines(src@);
        match find_fn_line(ls, fn_name@, 0) {
            None => r is Err && (r->Err_0 matches ExtractError::FunctionNotFound(n) && n@ == fn_name@),
            Some(s) => {
                let (body, found) = slice_from(ls, s, 0, false);
                &&& (found ==> r is Ok && r->Ok_0@ == body)
                &&& (!found ==> r is Err && (r->Err_0 matches ExtractError::FunctionBodyNotFound(n) && n@ == fn_name@))
            },
        }
    }),
{
    let lines = lines_of(src);
    let ghost ls = lines@.map_values(|x: String| x@);
    proof {
        crate::text::lemma_split_total(src@);
    }
    let mut needle = lit("fn ");
    append_chars(&mut needle, &chars_of(fn_name));
    let mut k: usize = 0;
    let mut start: Option<usize> = None;
    while k < lines.len() && start.is_none()
        invariant
            k <= lines.len(), ls == lines@.map_values(|x: String| x@), needle@ == "fn "@ + fn_name@,
            start is None ==> find_fn_line(ls, fn_name@, k as int) == find_fn_line(ls, fn_name@, 0),
            start is Some ==> start->0 < ls.len() && find_fn_line(ls, fn_name@, 0) == Some(start->0 as int),
        decreases lines.len() - k, if start is None { 1int } else { 0int },
    {
        let t = trim_start_vec(&chars_of(lines[k].as_str()));
        if starts_with_vec(&t, &lit("fn ")) && contains_vec(&t, &needle) {
            start = Some(k);
        } else {
            k += 1;
        }
    }
    let s = match start {
        Some(s) => s,
        None => return Err(ExtractError::FunctionNotFound(String::from_str(fn_name))),
    };
    let mut out: Vec<char> = Vec::new();
    let mut found_open = false;
    let mut depth: i32 = 0;
    let mut k = s;
    let ghost target = slice_from(ls, s as int, 0, false);
    let mut done = false;
    proof { crate::text::lemma_lines_total_mono(ls, 0, s as int); }
    while k < lines.len() && !done
        invariant
            s <= k <= lines.len(), ls == lines@.map_values(|x: String| x@),
            crate::text::lines_total(ls, ls.len() as int) <= 0x0800_0001,
            -crate::text::lines_total(ls, k as int) <= depth <= crate::text::lines_total(ls, k as int),
            target == slice_from(ls, s as int, 0, false),
            !done ==> ({ let (r, f) = slice_from(ls, k as int, depth as int, found_open); out@ + r == target.0 && f == target.1 }),
            done ==> out@ == target.0 && found_open == target.1,
        decreases lines.len() - k, if done { 0int } else { 1int },
    {
        proof {
            crate::text::lemma_lines_total_mono(ls, k as int, ls.len() as int);
            crate::text::lemma_lines_total_mono(ls, k as int, k + 1);
        }
        let ln = chars_of(lines[k].as_str());
        let ghost o0 = out@;
        let ghost (d0, f0) = (depth as int, found_open);
        append_chars(&mut out, &ln);
        out.push('\n');
        let mut j: usize = 0;
        while j < ln.len()
            invariant
                j <= ln.len(), ln@ == ls[k as int],
                (depth as int, found_open) == brace_scan(ls[k as int], j as int, d0, f0),
                -crate::text::lines_total(ls, k as int) - j <= depth <= crate::text::lines_total(ls, k as int) + j,
                crate::text::lines_total(ls, k as int) + ln@.len() <= 0x0800_0001,
            decreases ln.len() - j,
        {
            if ln[j] == '{' {
                depth += 1;
                found_open = true;
            } else if ln[j] == '}' {
                depth -= 1;
            }
            j += 1;
        }
        if found_open && depth <= 0 {
            done = true;
            assert(out@ =~= o0 + (ls[k as int] + seq!['\n']));
        } else {
            assert(o0 + slice_from(ls, k as int, d0, f0).0 =~= out@ + slice_from(ls, k + 1, depth as int, found_open).0);
        }
        k += 1;
    }
    proof {
        if !done {
            assert(out@ =~= target.0);
        }
    }
    if !found_open {
        return Err(ExtractError::FunctionBodyNotFound(String::from_str(fn_name)));
    }
    Ok(string_of(&out))
}

pub open spec fn cap_at(x: int, cap: int) -> int {
    if x < cap { x } else { cap }
}

/// The size of the statements (`l_size`), or `cap` if it is at least `cap`.
fn size_capped(stmts: &[AstNode], cap: usize) -> (r: usize)
    ensures r == cap_at(l_size(asts_v(stmts@, stmts@.len() as int), stmts@.len() as int), cap as int),
    decreases stmts@,
{
    let ghost s = asts_v(stmts@, stmts@.len() as int);
    proof { lemma_asts_v_len(stmts@, stmts@.len() as int); }
    let mut total: usize = 0;
    let mut k: usize = 0;
    while k < stmts.len()
        invariant
            k <= stmts@.len(), s == asts_v(stmts@, stmts@.len() as int), s.len() == stmts@.len(),
            total == cap_at(l_size(s, k as int), cap as int),
        decreases stmts@.len() - k,
    {
        proof {
            lemma_asts_v_index(stmts@, stmts@.len() as int, k as int);
            lemma_l_size_nonneg(s, k as int);
            lemma_a_size_pos(s[k as int]);
        }
        let one = stmt_size_capped(&stmts[k], cap);
        total = if total >= cap || one >= cap - total { cap } else { total + one };
        k += 1;
    }
    total
}

fn stmt_size_capped(st: &AstNode, cap: usize) -> (r: usize)
    ensures r == cap_at(a_size(ast_v(*st)), cap as int),
    decreases *st,
{
    proof { lemma_a_size_pos(ast_v(*st)); }
    match st {
        AstNode::Process { .. } => {
            assert(a_size(ast_v(*st)) == 1);
            if cap <= 1 { cap } else { 1 }
        },
        AstNode::Function { body, .. } => {
            proof {
                let a = *st;
                assert(decreases_to!(*body => body@));
                lemma_l_size_nonneg(list_v(*body), body@.len() as int);
                lemma_asts_v_len(body@, body@.len() as int);
            }
            let b = size_capped(body.as_slice(), cap);
            if cap < 1 || b >= cap - 1 { cap } else { b + 1 }
        },
        AstNode::Loop { body, .. } => {
            proof {
                let a = *st;
                assert(decreases_to!(*body => body@));
                lemma_l_size_nonneg(list_v(*body), body@.len() as int);
                lemma_asts_v_len(body@, body@.len() as int);
            }
            let b = size_capped(body.as_slice(), cap);
            if cap < 1 || b >= cap - 1 { cap } else { b + 1 }
        },
        AstNode::Decision { branches, default_branch, .. } => {
            let ghost bv = br_v(*branches);
            proof { lemma_branches_v_len(branches@, branches@.len() as int); }
            let mut total: usize = if cap < 1 { cap } else { 1 };
            let mut j: usize = 0;
            while j < branches.len()
                invariant
                    j <= branches@.len(), bv == br_v(*branches), bv.len() == branches@.len(), cap >= 0,
                    *st == (AstNode::Decision { text: (*st)->Decision_text, line_start: (*st)->Decision_line_start,
                        line_end: (*st)->Decision_line_end, branches: *branches, default_branch: *default_branch }),
                    total == cap_at(1 + b_size(bv, j as int), cap as int),
                decreases branches@.len() - j,
            {
                proof {
                    lemma_branches_v_index(branches@, branches@.len() as int, j as int);
                    lemma_b_size_nonneg(bv, j as int);
                    lemma_l_size_nonneg(bv[j as int].1, bv[j as int].1.len() as int);
                    let a = *st;
                    assert(decreases_to!(a => a->branches));
                    assert(decreases_to!(*branches => branches@));
                    assert(decreases_to!(branches@ => branches@[j as int]));
                    assert(decreases_to!(branches@[j as int] => branches@[j as int].body));
                    assert(decreases_to!(branches@[j as int].body => branches@[j as int].body@));
                }
                let b = size_capped(branches[j].body.as_slice(), cap);
                assert(bv[j as int].1 == list_v(branches@[j as int].body));
                proof { lemma_asts_v_len(branches@[j as int].body@, branches@[j as int].body@.len() as int); }
                assert(b == cap_at(l_size(bv[j as int].1, bv[j as int].1.len() as int), cap as int));
                assert(b_size(bv, j + 1) == b_size(bv, j as int) + 1 + l_size(bv[j as int].1, bv[j as int].1.len() as int));
                total = if total >= cap || b >= cap - total || b + 1 >= cap - total { cap } else { total + b + 1 };
                j += 1;
            }
            proof { lemma_b_size_nonneg(bv, bv.len() as int); }
            match default_branch {
                Some(d) => {
                    proof {
                        let a = *st;
                        assert(decreases_to!(a => a->default_branch));
                        assert(decreases_to!(a->default_branch => a->default_branch->0));
                        assert(decreases_to!(*d => d@));
                        lemma_asts_v_len(d@, d@.len() as int);
                        lemma_l_size_nonneg(list_v(*d), d@.len() as int);
                    }
                    let b = size_capped(d.as_slice(), cap);
                    if total >= cap || b >= cap - total || b + 1 >= cap - total { cap } else { total + b + 1 }
                },
                None => if total >= cap || 1 >= cap - total { cap } else { total + 1 },
            }
        },
    }
}

/// Assigns levels by source line rank and marks back edges.
pub fn assign_levels(nodes: &mut Vec<Node>, edges: &mut Vec<Edge>, start_id: usize, end_id: usize)
    requires
        graph_wf(old(nodes)@, old(edges)@, (old(nodes)@.len() + 1) as usize),
        levels_fit(nodes_view(old(nodes)@), edges_view(old(edges)@), start_id, end_id, 1),
    ensures ({
        let lv = spec_final_levels(nodes_view(old(nodes)@), edges_view(old(edges)@), start_id, end_id, 1);
        &&& final(nodes)@.len() == old(nodes)@.len()
        &&& final(edges)@.len() == old(edges)@.len()
        &&& forall|k: int| 0 <= k < final(nodes)@.len() ==>
            (#[trigger] final(nodes)@[k])@ == NodeView { level: Some(lv[k] as i32), ..old(nodes)@[k]@ }
            && lv[k] == final(nodes)@[k].level->0
        &&& forall|k: int| 0 <= k < final(edges)@.len() ==>
            (#[trigger] final(edges)@[k])@ == EdgeView {
                back_edge: is_next(old(edges)@[k]@.label) || lv[old(edges)@[k].to - 1] <= lv[old(edges)@[k].from - 1],
                ..old(edges)@[k]@
            }
    }),
{
    let _ = assign_levels_bucketed(nodes, edges, start_id, end_id, 1);
}

/// The syntax tree of a Rust source: comments stripped, tokenized, parsed,
/// and compacted into blocks of up to `m` statements unless `no_compact`.
pub open spec fn spec_rust_ast(source: Seq<char>, no_compact: bool, m: usize) -> Seq<AstV> {
    let t = spec_tokenize(sc(source, 0, false, 0, false, false));
    let a = pb(t, 0, false, Seq::empty()).0;
    if no_compact { a } else { ca(a, if m >= 1 { m as int } else { 1 }) }
}

/// The graph before levels: a Start node, the walk of the tree, and an
/// End node that all exits flow into.
pub open spec fn spec_rust_built(ast: Seq<AstV>) -> (GState, usize) {
    let g0 = GState { nodes: Seq::empty(), edges: Seq::empty(), next_id: 1 };
    let (g1, start) = r_add(g0, Shape::Terminator, "Start"@, Some(1usize), Some(1usize), 0);
    let w = rw_list(g1, ast, ast.len() as int, bare_exit(start), 0);
    let (g3, end) = r_add(w.0, Shape::Terminator, "End"@, None, None, 0);
    (g_connect(g3, w.1, end), end)
}

/// The flow graph of a Rust source, of `function` (trimmed) or of the
/// whole source when it is empty. `GraphTooLarge` where the levels do not
/// fit in `i32` (`levels_fit`), or where the tree has more statements than
/// `usize` can number node ids for.
pub fn rust_flow_graph(src: &str, function: &str, no_compact: bool, compact_max_stmts: usize)
    -> (r: Result<FlowGraph, ExtractError>)
    requires src@.len() <= 0x0800_0000,
    ensures ({
        let f = spec_trim(function@);
        let ls = split_lines(src@);
        let source: Option<Seq<char>> = if f.len() == 0 {
            Some(src@)
        } else {
            match find_fn_line(ls, f, 0) {
                None => None,
                Some(s) => if slice_from(ls, s, 0, false).1 { Some(slice_from(ls, s, 0, false).0) } else { None },
            }
        };
        &&& (source is None ==> r is Err && (r->Err_0 is FunctionNotFound || r->Err_0 is FunctionBodyNotFound))
        &&& (source is Some && r is Ok ==> ({
            let (b, end) = spec_rust_built(spec_rust_ast(source->0, no_compact, compact_max_stmts));
            let lv = spec_final_levels(b.nodes, b.edges, 1, end, 1);
            &&& nodes_view(r->Ok_0.nodes@) == levelled_nodes(b.nodes, lv)
            &&& edges_view(r->Ok_0.edges@) == levelled_edges(b.edges, lv)
            &&& r->Ok_0.start == 1 && r->Ok_0.end == end
            &&& forall|k: int| 0 <= k < r->Ok_0.nodes@.len() ==> lv[k] == (#[trigger] r->Ok_0.nodes@[k]).level->0
            &&& graph_wf(r->Ok_0.nodes@, r->Ok_0.edges@, (r->Ok_0.nodes@.len() + 1) as usize)
            &&& r->Ok_0.end == r->Ok_0.nodes@.len()
        }))
        &&& (source is Some && r is Err ==> r->Err_0 is GraphTooLarge)
        &&& (source is Some ==> (r is Ok <==> ({
            let ast = spec_rust_ast(source->0, no_compact, compact_max_stmts);
            let (b, end) = spec_rust_built(ast);
            l_size(ast, ast.len() as int) < usize::MAX - 2 && levels_fit(b.nodes, b.edges, 1, end, 1)
        })))
    }),
{
    let fname_chars = trim_vec(&chars_of(function));
    let source: String = if fname_chars.len() == 0 {
        String::from_str(src)
    } else {
        let fname = string_of(&fname_chars);
        match extract_function_slice(src, fname.as_str()) {
            Ok(s) => s,
            Err(e) => return Err(e),
        }
    };
    proof {
        let ls = split_lines(src@);
        crate::text::lemma_split_total(src@);
        if fname_chars@.len() > 0 {
            let k = find_fn_line(ls, fname_chars@, 0)->0;
            lemma_find_fn_line(ls, fname_chars@, 0);
            crate::text::lemma_lines_total_mono(ls, k, ls.len() as int);
            lemma_slice_len(ls, k, 0, false);
            crate::text::lemma_lines_total_mono(ls, 0, ls.len() as int);
        }
    }
    let stripped = strip_comments(source.as_str());
    let toks = tokenize(stripped.as_str());
    let mut i: usize = 0;
    let ast0 = parse_block(&toks, &mut i, false);
    let ast = if !no_compact { compact_ast(ast0, compact_max_stmts) } else { ast0 };
    assert(list_v(ast) == spec_rust_ast(source@, no_compact, compact_max_stmts));
    let ghost spec_source: Option<Seq<char>> = {
        let f = spec_trim(function@);
        let ls = split_lines(src@);
        if f.len() == 0 {
            Some(src@)
        } else {
            match find_fn_line(ls, f, 0) {
                None => None,
                Some(s) => if slice_from(ls, s, 0, false).1 { Some(slice_from(ls, s, 0, false).0) } else { None },
            }
        }
    };
    assert(spec_source == Some(source@));
    proof { lemma_asts_v_len(ast@, ast@.len() as int); }
    let cap: usize = usize::MAX - 2;
    let size = size_capped(ast.as_slice(), cap);
    if size >= cap {
        return Err(ExtractError::GraphTooLarge);
    }
    let mut nodes: Vec<Node> = Vec::new();
    let mut edges: Vec<Edge> = Vec::new();
    let mut next_id: usize = 1;
    let ghost g0 = GState { nodes: Seq::empty(), edges: Seq::empty(), next_id: 1 };
    assert(gs3(nodes@, edges@, next_id) =~= g0) by {
        assert(nodes_view(nodes@) =~= Seq::<NodeView>::empty());
        assert(edges_view(edges@) =~= Seq::<EdgeView>::empty());
    }
    proof { lemma_asts_v_len(ast@, ast@.len() as int); }
    let ghost av = list_v(ast);
    let start = add_node_wf(&mut nodes, &edges, &mut next_id, Shape::Terminator, String::from_str("Start"), Some(1), Some(1), 0);
    let ghost g1 = gs3(nodes@, edges@, next_id);
    assert(g1 == r_add(g0, Shape::Terminator, "Start"@, Some(1usize), Some(1usize), 0).0);
    let exits = walk_block(&mut nodes, &mut edges, &mut next_id, ast.as_slice(), exit_bare(start), 0);
    let ghost w = rw_list(g1, av, av.len() as int, bare_exit(start), 0);
    assert(gs3(nodes@, edges@, next_id) == w.0 && exits_view(exits@) == w.1);
    let end = add_node_wf(&mut nodes, &edges, &mut next_id, Shape::Terminator, String::from_str("End"), None, None, 0);
    assert(gs3(nodes@, edges@, next_id) == r_add(w.0, Shape::Terminator, "End"@, None, None, 0).0);
    connect_wf(&nodes, &mut edges, next_id, &exits, end);
    assert(gs3(nodes@, edges@, next_id) == spec_rust_built(av).0);
    assert(end == spec_rust_built(av).1);
    assert(end == nodes@.len());
    finish_graph(nodes, edges, start, end, 1)
}

proof fn lemma_find_fn_line(ls: Seq<Seq<char>>, name: Seq<char>, k: int)
    requires 0 <= k,
    ensures find_fn_line(ls, name, k) is Some ==> k <= find_fn_line(ls, name, k)->0 < ls.len(),
    decreases ls.len() - k,
{
    if k < ls.len() {
        lemma_find_fn_line(ls, name, k + 1);
    }
}

proof fn lemma_slice_len(ls: Seq<Seq<char>>, k: int, d: int, found: bool)
    requires 0 <= k <= ls.len(),
    ensures slice_from(ls, k, d, found).0.len() <= crate::text::lines_total(ls, ls.len() as int) - crate::text::lines_total(ls, k),
    decreases ls.len() - k,
{
    crate::text::lemma_lines_total_mono(ls, k, ls.len() as int);
    if k < ls.len() {
        crate::text::lemma_lines_total_mono(ls, k, k + 1);
        lemma_slice_len(ls, k + 1, brace_scan(ls[k], ls[k].len() as int, d, found).0, brace_scan(ls[k], ls[k].len() as int, d, found).1);
    }
}

} // verus!
