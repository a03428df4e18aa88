//! The Python source parser: splits source into logical lines by
//! indentation and turns each statement into flowchart nodes and edges.
use vstd::prelude::*;
use crate::geometry::Shape;
use crate::graph::{
    Node, Edge, Exit, NodeView, EdgeView, nodes_view, edges_view, exits_view, graph_wf, exits_ok, opt_view,
    spec_connect_edges, connect_edges, push_node, clip_text, spec_clip_text, assign_levels_bucketed,
    spec_final_levels, levels_fit, is_next, FlowGraph, ExtractError, finish_graph, levelled_nodes,
    levelled_edges, GState, ExitV, g_connect, next_edges, one_exit, bare_exit, exit_with, exit_bare, exit_owned,
    append_exits, lemma_exits_ok_mono, lemma_exits_ok_concat, grows, lemma_grows_trans, lemma_grows_refl,
    exits_among, lemma_among_concat, lemma_among_trans, lemma_next_edges_each, lemma_grows_keeps_edge,
    lemma_connect_has, lemma_append_keeps_edge,
    lemma_next_edges_grows, walk_rep, walk_src, walk_ex, in_or_new, lemma_ex_lift, lemma_ex_concat,
    lemma_ex_single, lemma_rep_seq, lemma_connect_src, lemma_ex_refl, lemma_next_src, ids_in, ids_sub,
    lemma_ids_sub_left, lemma_ids_sub_right, lemma_ids_sub_cat, lemma_ids_sub_single, lemma_rep_widen, lemma_ex_of_sub,
};
use crate::text::{
    split_lines, lines_of, lemma_split_total, lemma_lines_total_mono, lines_total,
    chars_of, string_of, spec_trim_end, spec_trim, trim_end_vec, trim_vec, seq_starts_with, starts_with_vec,
    slice_vec, eq_vec, spec_trim_end_char, trim_end_char_vec, first_occurrence, find_vec, seq_contains,
    contains_vec, spec_before_char, before_char, spec_join, join_vecs, spec_decimal, decimal, append_chars,
};

verus! {

broadcast use vstd::string::group_string_axioms;

/// One logical line: its first and last physical line, its indentation and
/// its code without comments, continuation lines joined by single spaces.
#[derive(Debug)]
pub struct LineInfo {
    pub lineno: usize,
    pub line_end: usize,
    pub indent: usize,
    pub code: String,
}

pub ghost struct LineView {
    pub lineno: usize,
    pub line_end: usize,
    pub indent: usize,
    pub code: Seq<char>,
}

impl View for LineInfo {
    type V = LineView;

    open spec fn view(&self) -> LineView {
        LineView { lineno: self.lineno, line_end: self.line_end, indent: self.indent, code: self.code@ }
    }
}

pub open spec fn lines_view(v: Seq<LineInfo>) -> Seq<LineView> {
    v.map_values(|l: LineInfo| l@)
}

/// Nodes and edges under construction, with the next free node id.
#[derive(Debug)]
pub struct GraphBuilder {
    pub nodes: Vec<Node>,
    pub edges: Vec<Edge>,
    pub next_id: usize,
}

impl GraphBuilder {
    pub open spec fn wf(&self) -> bool {
        graph_wf(self.nodes@, self.edges@, self.next_id)
    }

    /// An empty graph whose first node will get id 1.
    pub fn new() -> (gb: Self)
        ensures gb.wf(), gb.nodes@.len() == 0, gb.edges@.len() == 0, gb.next_id == 1,
    {
        GraphBuilder { nodes: Vec::new(), edges: Vec::new(), next_id: 1 }
    }

    /// Adds a node with the next id, its text cut to 180 characters and its
    /// end line defaulting to its start line; returns the id.
    pub fn add_node(
        &mut self,
        shape: Shape,
        text: String,
        line_start: Option<usize>,
        line_end: Option<usize>,
        lane: i32,
    ) -> (id: usize)
        requires old(self).wf(), old(self).next_id < usize::MAX,
        ensures
            final(self).wf(),
            id == old(self).next_id,
            final(self).next_id == id + 1,
            nodes_view(final(self).nodes@) == nodes_view(old(self).nodes@).push(NodeView {
                id, shape, text: spec_clip_text(text@), line_start,
                line_end: if line_end is Some { line_end } else { line_start }, lane, level: None,
            }),
            final(self).edges@ == old(self).edges@,
    {
        let le = match line_end {
            Some(v) => Some(v),
            None => line_start,
        };
        let t = clip_text(text);
        let ghost n0 = self.nodes@;
        let id = push_node(&mut self.nodes, &mut self.next_id, shape, t, line_start, le, lane);
        proof {
            assert forall|k: int| 0 <= k < self.nodes@.len() implies (#[trigger] self.nodes@[k]).id == k + 1 by {
                if k < n0.len() { assert(self.nodes@[k].id == n0[k].id); }
            }
        }
        id
    }

    /// Adds an edge from every exit in `incoming` to `dst`, labelled with
    /// the exit's label or else `default_label`.
    pub fn connect(&mut self, incoming: &[Exit], dst: usize, default_label: Option<&str>)
        requires
            old(self).wf(), 1 <= dst < old(self).next_id,
            exits_ok(exits_view(incoming@), old(self).next_id),
        ensures
            final(self).wf(),
            final(self).nodes@ == old(self).nodes@,
            final(self).next_id == old(self).next_id,
            edges_view(final(self).edges@) == edges_view(old(self).edges@) + spec_connect_edges(exits_view(incoming@), dst,
                match default_label { Some(s) => Some(s@), None => None }),
    {
        let ghost e0 = self.edges@;
        connect_edges(&mut self.edges, incoming, dst, default_label);
        proof {
            let dl: Option<Seq<char>> = match default_label { Some(s) => Some(s@), None => None };
            let add = spec_connect_edges(exits_view(incoming@), dst, dl);
            assert(edges_view(self.edges@).len() == self.edges@.len());
            assert(self.edges@.len() == e0.len() + incoming@.len());
            assert forall|k: int| 0 <= k < self.edges@.len() implies
                1 <= (#[trigger] self.edges@[k]).from < self.next_id && 1 <= self.edges@[k].to < self.next_id by {
                assert(edges_view(self.edges@)[k] == self.edges@[k]@);
                if k < e0.len() {
                    assert(edges_view(e0)[k] == e0[k]@);
                } else {
                    let j = k - e0.len();
                    assert(add[j] == edges_view(self.edges@)[k]);
                    assert(exits_view(incoming@)[j] == incoming@[j]@);
                }
            }
        }
    }
}

/// Index of the first `#` outside quotes at or after `i`, given the quote
/// state there, or the length of `s`.
pub open spec fn comment_cut(s: Seq<char>, i: int, sq: bool, dq: bool) -> int
    decreases s.len() - i,
{
    if i >= s.len() {
        s.len() as int
    } else if s[i] == '\'' && !dq {
        comment_cut(s, i + 1, !sq, dq)
    } else if s[i] == '"' && !sq {
        comment_cut(s, i + 1, sq, !dq)
    } else if s[i] == '#' && !sq && !dq {
        i
    } else {
        comment_cut(s, i + 1, sq, dq)
    }
}

proof fn lemma_comment_cut(s: Seq<char>, i: int, sq: bool, dq: bool)
    requires 0 <= i <= s.len(),
    ensures i <= comment_cut(s, i, sq, dq) <= s.len(),
    decreases s.len() - i,
{
    if i < s.len() {
        if !(s[i] == '#' && !sq && !dq && !(s[i] == '\'' && !dq) && !(s[i] == '"' && !sq)) {
            lemma_comment_cut(s, i + 1, if s[i] == '\'' && !dq { !sq } else { sq },
                if !(s[i] == '\'' && !dq) && s[i] == '"' && !sq { !dq } else { dq });
        }
    }
}

/// `s` up to its first `#` outside quotes, without trailing whitespace.
pub open spec fn spec_strip_inline_comment(s: Seq<char>) -> Seq<char> {
    spec_trim_end(s.take(comment_cut(s, 0, false, false)))
}

/// Removes a trailing `#` comment (one not inside quotes) and trailing
/// whitespace.
pub fn strip_inline_comment(s: &str) -> (r: String)
    ensures r@ == spec_strip_inline_comment(s@),
{
    let chars = chars_of(s);
    let mut in_single = false;
    let mut in_double = false;
    let mut i: usize = 0;
    while i < chars.len() && !(chars[i] == '#' && !in_single && !in_double)
        invariant
            i <= chars.len(), chars@ == s@,
            comment_cut(s@, i as int, in_single, in_double) == comment_cut(s@, 0, false, false),
        decreases chars.len() - i,
    {
        let ch = chars[i];
        if ch == '\'' && !in_double {
            in_single = !in_single;
        } else if ch == '"' && !in_single {
            in_double = !in_double;
        }
        i += 1;
    }
    assert(comment_cut(s@, i as int, in_single, in_double) == i);
    let head = slice_vec(&chars, 0, i);
    assert(head@ =~= s@.take(comment_cut(s@, 0, false, false)));
    let t = trim_end_vec(&head);
    string_of(&t)
}

/// Indentation width of `s` from position `i`: 1 per space and 4 per tab
/// up to the first other character.
pub open spec fn indent_from(s: Seq<char>, i: int) -> int
    decreases s.len() - i,
{
    if i >= s.len() {
        0
    } else if s[i] == ' ' {
        1 + indent_from(s, i + 1)
    } else if s[i] == '\t' {
        4 + indent_from(s, i + 1)
    } else {
        0
    }
}

proof fn lemma_indent_bound(s: Seq<char>, i: int)
    requires 0 <= i <= s.len(),
    ensures 0 <= indent_from(s, i) <= 4 * (s.len() - i),
    decreases s.len() - i,
{
    if i < s.len() {
        lemma_indent_bound(s, i + 1);
    }
}

/// Indentation width of a raw line: spaces count 1, tabs 4.
pub fn leading_indent(raw: &str) -> (indent: usize)
    requires raw@.len() <= 0x1000_0000,
    ensures indent == indent_from(raw@, 0),
{
    let chars = chars_of(raw);
    let mut indent: usize = 0;
    let mut i: usize = 0;
    proof { lemma_indent_bound(raw@, 0); }
    while i < chars.len() && (chars[i] == ' ' || chars[i] == '\t')
        invariant
            i <= chars.len(), chars@ == raw@, raw@.len() <= 0x1000_0000,
            indent + indent_from(raw@, i as int) == indent_from(raw@, 0),
            indent <= 4 * i,
        decreases chars.len() - i,
    {
        if chars[i] == ' ' {
            indent += 1;
        } else {
            indent += 4;
        }
        i += 1;
    }
    indent
}

pub open spec fn is_open(c: char) -> bool { c == '(' || c == '[' || c == '{' }

pub open spec fn is_close(c: char) -> bool { c == ')' || c == ']' || c == '}' }

/// Bracket depth change of `s` from position `i` outside quotes; a
/// backslash skips the character after it.
pub open spec fn pdelta(s: Seq<char>, i: int, sq: bool, dq: bool) -> int
    decreases s.len() + 2 - i,
{
    if i >= s.len() || i < 0 {
        0
    } else if s[i] == '\\' {
        pdelta(s, i + 2, sq, dq)
    } else if s[i] == '\'' && !dq {
        pdelta(s, i + 1, !sq, dq)
    } else if s[i] == '"' && !sq {
        pdelta(s, i + 1, sq, !dq)
    } else if !sq && !dq && is_open(s[i]) {
        1 + pdelta(s, i + 1, sq, dq)
    } else if !sq && !dq && is_close(s[i]) {
        -1 + pdelta(s, i + 1, sq, dq)
    } else {
        pdelta(s, i + 1, sq, dq)
    }
}

/// Net count of opening over closing brackets outside quotes.
pub fn paren_delta(s: &str) -> (depth: i32)
    requires s@.len() <= 0x1000_0000,
    ensures depth == pdelta(s@, 0, false, false), -(s@.len() as int) - 1 <= depth <= s@.len() + 1,
{
    let chars = chars_of(s);
    let mut depth: i32 = 0;
    let mut in_single = false;
    let mut in_double = false;
    let mut i: usize = 0;
    while i < chars.len()
        invariant
            chars@ == s@, s@.len() <= 0x1000_0000, i <= chars.len() + 1,
            depth + pdelta(s@, i as int, in_single, in_double) == pdelta(s@, 0, false, false),
            -(i as int) <= depth <= i,
        decreases chars.len() + 2 - i,
    {
        let ch = chars[i];
        if ch == '\\' {
            i += 2;
            continue;
        }
        if ch == '\'' && !in_double {
            in_single = !in_single;
        } else if ch == '"' && !in_single {
            in_double = !in_double;
        } else if !in_single && !in_double {
            if ch == '(' || ch == '[' || ch == '{' {
                depth += 1;
            } else if ch == ')' || ch == ']' || ch == '}' {
                depth -= 1;
            }
        }
        i += 1;
    }
    depth
}

/// Whether `code` begins with keyword `kw` followed by the end, a space
/// or a colon.
pub open spec fn spec_starts_with_kw(code: Seq<char>, kw: Seq<char>) -> bool {
    seq_starts_with(code, kw) && (code.len() == kw.len() || code[kw.len() as int] == ' ' || code[kw.len() as int] == ':')
}

pub fn starts_with_kw(code: &str, kw: &str) -> (r: bool)
    ensures r == spec_starts_with_kw(code@, kw@),
{
    let c = chars_of(code);
    let k = chars_of(kw);
    if !starts_with_vec(&c, &k) {
        return false;
    }
    c.len() == k.len() || c[k.len()] == ' ' || c[k.len()] == ':'
}

/// Whether a line is a plain statement that may be merged with its
/// neighbours into one process block.
pub open spec fn spec_is_groupable(c: Seq<char>) -> bool {
    !(spec_starts_with_kw(c, "if"@) || spec_starts_with_kw(c, "elif"@) || c == "else:"@
        || spec_starts_with_kw(c, "for"@) || spec_starts_with_kw(c, "while"@) || spec_starts_with_kw(c, "try"@)
        || spec_starts_with_kw(c, "except"@) || spec_starts_with_kw(c, "return"@) || spec_starts_with_kw(c, "raise"@)
        || c == "break"@ || c == "continue"@ || spec_starts_with_kw(c, "finally"@) || spec_starts_with_kw(c, "with"@)
        || spec_starts_with_kw(c, "def"@) || spec_starts_with_kw(c, "class"@))
}

pub fn str_eq(a: &str, b: &str) -> (r: bool)
    ensures r == (a@ == b@),
{
    crate::text::str_is(a, b)
}

pub fn is_groupable_process(code: &str) -> (r: bool)
    ensures r == spec_is_groupable(code@),
{
    !(starts_with_kw(code, "if") || starts_with_kw(code, "elif") || str_eq(code, "else:")
        || starts_with_kw(code, "for") || starts_with_kw(code, "while") || starts_with_kw(code, "try")
        || starts_with_kw(code, "except") || starts_with_kw(code, "return") || starts_with_kw(code, "raise")
        || str_eq(code, "break") || str_eq(code, "continue") || starts_with_kw(code, "finally")
        || starts_with_kw(code, "with") || starts_with_kw(code, "def") || starts_with_kw(code, "class"))
}

/// `idx` itself while it is a valid line index.
pub fn find_next_code(lines: &[LineInfo], idx: usize) -> (r: Option<usize>)
    ensures r == (if idx >= lines@.len() { None } else { Some(idx) }),
{
    if idx >= lines.len() { None } else { Some(idx) }
}

/// The line after `idx` and its indentation, if it is indented deeper than
/// `current_indent` (the start of a nested block).
pub fn body_start_indent(lines: &[LineInfo], idx: usize, current_indent: usize) -> (r: Option<(usize, usize)>)
    ensures
        r == (if idx + 1 < lines@.len() && lines@[idx + 1].indent > current_indent {
            Some(((idx + 1) as usize, lines@[idx + 1].indent))
        } else {
            None
        }),
{
    if idx >= lines.len() || idx + 1 >= lines.len() {
        return None;
    }
    let ni = idx + 1;
    if lines[ni].indent > current_indent { Some((ni, lines[ni].indent)) } else { None }
}

/// The state of the logical-line builder between physical lines.
pub ghost struct LLState {
    pub out: Seq<LineView>,
    pub buf: Seq<char>,
    pub start_line: usize,
    pub end_line: usize,
    pub start_indent: usize,
    pub depth: int,
}

/// Feeds one physical line to the builder: blank and comment-only lines
/// are skipped; a line continues the logical line while brackets stay open
/// or it ends in a backslash.
pub open spec fn ll_step(st: LLState, lineno: usize, raw: Seq<char>) -> LLState {
    let nc = spec_strip_inline_comment(raw);
    let part = spec_trim(nc);
    if part.len() == 0 {
        st
    } else {
        let sl = if st.buf.len() == 0 { lineno } else { st.start_line };
        let si = if st.buf.len() == 0 { indent_from(nc, 0) as usize } else { st.start_indent };
        let buf = if st.buf.len() == 0 { part } else { st.buf.push(' ') + part };
        let depth = st.depth + pdelta(part, 0, false, false);
        if part.last() == '\\' || depth > 0 {
            LLState { out: st.out, buf, start_line: sl, end_line: lineno, start_indent: si, depth }
        } else {
            LLState {
                out: st.out.push(LineView { lineno: sl, line_end: lineno, indent: si, code: spec_trim(buf) }),
                buf: Seq::empty(), start_line: sl, end_line: lineno, start_indent: si, depth: 0,
            }
        }
    }
}

pub open spec fn ll_fold(phys: Seq<(usize, Seq<char>)>, k: int) -> LLState
    decreases k,
{
    if k <= 0 {
        LLState { out: Seq::empty(), buf: Seq::empty(), start_line: 0, end_line: 0, start_indent: 0, depth: 0 }
    } else {
        ll_step(ll_fold(phys, k - 1), phys[k - 1].0, phys[k - 1].1)
    }
}

/// The logical lines of the physical lines `phys` (number, text).
pub open spec fn spec_logical_lines(phys: Seq<(usize, Seq<char>)>) -> Seq<LineView> {
    let st = ll_fold(phys, phys.len() as int);
    if st.buf.len() == 0 {
        st.out
    } else {
        st.out.push(LineView {
            lineno: st.start_line,
            line_end: if st.end_line >= st.start_line { st.end_line } else { st.start_line },
            indent: st.start_indent,
            code: spec_trim(st.buf),
        })
    }
}

pub open spec fn phys_view(p: Seq<(usize, String)>) -> Seq<(usize, Seq<char>)> {
    p.map_values(|x: (usize, String)| (x.0, x.1@))
}

/// Total length of the first `k` physical lines, counting one per line end.
pub open spec fn phys_total(p: Seq<(usize, String)>, k: int) -> int
    decreases k,
{
    if k <= 0 { 0 } else { phys_total(p, k - 1) + p[k - 1].1@.len() + 1 }
}

/// Physical lines short enough in total for the bracket depth to fit in
/// `i32`.
pub open spec fn phys_ok(p: Seq<(usize, String)>) -> bool {
    phys_total(p, p.len() as int) <= 0x1000_0000
}

proof fn lemma_phys_total_mono(p: Seq<(usize, String)>, a: int, b: int)
    requires 0 <= a <= b <= p.len(),
    ensures 0 <= phys_total(p, a) <= phys_total(p, b),
    decreases b - a,
{
    lemma_phys_total_nonneg(p, a);
    if a < b {
        lemma_phys_total_mono(p, a, b - 1);
    }
}

proof fn lemma_phys_total_nonneg(p: Seq<(usize, String)>, a: int)
    requires 0 <= a <= p.len(),
    ensures 0 <= phys_total(p, a),
    decreases a,
{
    if a > 0 {
        lemma_phys_total_nonneg(p, a - 1);
    }
}

proof fn lemma_strip_len(s: Seq<char>)
    ensures spec_strip_inline_comment(s).len() <= s.len(),
{
    lemma_comment_cut(s, 0, false, false);
    crate::text::lemma_trim_len(s.take(comment_cut(s, 0, false, false)));
}

/// Joins physical lines into logical lines: comments and blank lines
/// dropped, continuation lines appended with one space.
pub fn build_logical_lines(physical: &[(usize, String)]) -> (out: Vec<LineInfo>)
    requires phys_ok(physical@),
    ensures
        lines_view(out@) == spec_logical_lines(phys_view(physical@)),
        codes_ok(out@),
        out@.len() <= physical@.len(),
{
    let ghost ph = phys_view(physical@);
    let mut out: Vec<LineInfo> = Vec::new();
    let mut buf: Vec<char> = Vec::new();
    let mut start_line: usize = 0;
    let mut end_line: usize = 0;
    let mut start_indent: usize = 0;
    let mut depth: i32 = 0;
    let mut k: usize = 0;
    while k < physical.len()
        invariant
            k <= physical.len(), ph == phys_view(physical@), phys_ok(physical@),
            ({
                let st = ll_fold(ph, k as int);
                &&& lines_view(out@) == st.out
                &&& buf@ == st.buf
                &&& start_line == st.start_line && end_line == st.end_line
                &&& start_indent == st.start_indent && depth == st.depth
            }),
            -phys_total(physical@, k as int) <= depth <= phys_total(physical@, k as int),
            buf@.len() <= phys_total(physical@, k as int),
            codes_ok(out@), out@.len() + (if buf@.len() > 0 { 1int } else { 0int }) <= k,
            phys_total(physical@, k as int) <= 0x1000_0000,
        decreases physical.len() - k,
    {
        let lineno = physical[k].0;
        let raw = &physical[k].1;
        assert(ph[k as int] == (lineno, raw@));
        proof { lemma_phys_total_mono(physical@, k + 1, physical@.len() as int); }
        assert(raw@.len() + 1 <= phys_total(physical@, k + 1) - phys_total(physical@, k as int));
        let no_comment = strip_inline_comment(raw.as_str());
        proof { lemma_strip_len(raw@); }
        let nc = chars_of(no_comment.as_str());
        let part = trim_vec(&nc);
        proof { crate::text::lemma_trim_len(nc@); }
        if part.len() > 0 {
            if buf.len() == 0 {
                start_line = lineno;
                start_indent = leading_indent(no_comment.as_str());
            }
            if buf.len() > 0 {
                buf.push(' ');
            }
            crate::text::append_chars(&mut buf, &part);
            end_line = lineno;
            let ps = string_of(&part);
            let d = paren_delta(ps.as_str());
            depth = depth + d;
            let continued = part[part.len() - 1] == '\\' || depth > 0;
            if !continued {
                let code_chars = trim_vec(&buf);
                proof { crate::text::lemma_trim_len(buf@); }
                let code = string_of(&code_chars);
                let ghost o0 = lines_view(out@);
                out.push(LineInfo { lineno: start_line, line_end: end_line, indent: start_indent, code });
                assert(lines_view(out@) =~= o0.push(out@.last()@));
                buf = Vec::new();
                depth = 0;
            }
        }
        k += 1;
        proof {
            assert(ph.take(k as int).drop_last() =~= ph.take(k - 1));
        }
    }
    if buf.len() > 0 {
        let code_chars = trim_vec(&buf);
        proof { crate::text::lemma_trim_len(buf@); }
        let code = string_of(&code_chars);
        let le = if end_line >= start_line { end_line } else { start_line };
        let ghost o0 = lines_view(out@);
        out.push(LineInfo { lineno: start_line, line_end: le, indent: start_indent, code });
        assert(lines_view(out@) =~= o0.push(out@.last()@));
    }
    out
}

/// Whether a `=` at bracket depth 0, outside quotes and not part of a
/// comparison, walrus or augmented operator, occurs at or after `i`.
pub open spec fn hta(s: Seq<char>, i: int, depth: int, sq: bool, dq: bool) -> bool
    decreases s.len() + 2 - i,
{
    if i >= s.len() || i < 0 {
        false
    } else if s[i] == '\\' && (sq || dq) {
        hta(s, i + 2, depth, sq, dq)
    } else if s[i] == '\'' && !dq {
        hta(s, i + 1, depth, !sq, dq)
    } else if s[i] == '"' && !sq {
        hta(s, i + 1, depth, sq, !dq)
    } else if sq || dq {
        hta(s, i + 1, depth, sq, dq)
    } else if is_open(s[i]) {
        hta(s, i + 1, depth + 1, sq, dq)
    } else if is_close(s[i]) {
        hta(s, i + 1, depth - 1, sq, dq)
    } else if s[i] == '=' && depth == 0 {
        let prev_bad = i > 0 && (s[i - 1] == ':' || s[i - 1] == '=' || s[i - 1] == '!' || s[i - 1] == '<' || s[i - 1] == '>');
        let next_bad = i + 1 < s.len() && s[i + 1] == '=';
        if prev_bad || next_bad { hta(s, i + 1, depth, sq, dq) } else { true }
    } else {
        hta(s, i + 1, depth, sq, dq)
    }
}

/// Whether `code` assigns at the top level.
pub fn has_top_level_assignment(code: &str) -> (r: bool)
    requires code@.len() <= 0x1000_0000,
    ensures r == hta(code@, 0, 0, false, false),
{
    let chars = chars_of(code);
    let mut depth: i32 = 0;
    let mut in_single = false;
    let mut in_double = false;
    let mut i: usize = 0;
    while i < chars.len()
        invariant
            chars@ == code@, code@.len() <= 0x1000_0000, i <= chars.len() + 1,
            hta(code@, i as int, depth as int, in_single, in_double) == hta(code@, 0, 0, false, false),
            -(i as int) <= depth <= i,
        decreases chars.len() + 2 - i,
    {
        let ch = chars[i];
        if ch == '\\' && (in_single || in_double) {
            i += 2;
            continue;
        }
        if ch == '\'' && !in_double {
            in_single = !in_single;
        } else if ch == '"' && !in_single {
            in_double = !in_double;
        } else if in_single || in_double {
        } else if ch == '(' || ch == '[' || ch == '{' {
            depth += 1;
        } else if ch == ')' || ch == ']' || ch == '}' {
            depth -= 1;
        } else if ch == '=' && depth == 0 {
            let prev_bad = i > 0 && (chars[i - 1] == ':' || chars[i - 1] == '=' || chars[i - 1] == '!'
                || chars[i - 1] == '<' || chars[i - 1] == '>');
            let next_bad = i + 1 < chars.len() && chars[i + 1] == '=';
            if !(prev_bad || next_bad) {
                return true;
            }
        }
        i += 1;
    }
    false
}

/// The pieces of `s` between commas at bracket depth 0 outside quotes,
/// each trimmed, from position `i` with the current piece `cur`.
pub open spec fn stc(s: Seq<char>, i: int, cur: Seq<char>, depth: int, sq: bool, dq: bool, out: Seq<Seq<char>>) -> Seq<Seq<char>>
    decreases s.len() + 2 - i,
{
    if i >= s.len() || i < 0 {
        let out2 = if spec_trim(cur).len() > 0 { out.push(spec_trim(cur)) } else { out };
        if out2.len() == 0 { seq![spec_trim(s)] } else { out2 }
    } else if s[i] == '\\' {
        let cur2 = if i + 1 < s.len() { cur.push('\\').push(s[i + 1]) } else { cur.push('\\') };
        stc(s, i + 2, cur2, depth, sq, dq, out)
    } else if s[i] == '\'' && !dq {
        stc(s, i + 1, cur.push(s[i]), depth, !sq, dq, out)
    } else if s[i] == '"' && !sq {
        stc(s, i + 1, cur.push(s[i]), depth, sq, !dq, out)
    } else if !sq && !dq && s[i] == ',' && depth == 0 {
        stc(s, i + 1, Seq::empty(), depth, sq, dq, out.push(spec_trim(cur)))
    } else if !sq && !dq && is_open(s[i]) {
        stc(s, i + 1, cur.push(s[i]), depth + 1, sq, dq, out)
    } else if !sq && !dq && is_close(s[i]) {
        stc(s, i + 1, cur.push(s[i]), depth - 1, sq, dq, out)
    } else {
        stc(s, i + 1, cur.push(s[i]), depth, sq, dq, out)
    }
}

pub open spec fn strings_view(v: Seq<String>) -> Seq<Seq<char>> {
    v.map_values(|x: String| x@)
}

pub open spec fn vecs_view(v: Seq<Vec<char>>) -> Seq<Seq<char>> {
    v.map_values(|x: Vec<char>| x@)
}

fn split_commas_vec(chars: &Vec<char>) -> (out: Vec<Vec<char>>)
    requires chars@.len() <= 0x1000_0000,
    ensures vecs_view(out@) == stc(chars@, 0, Seq::empty(), 0, false, false, Seq::empty()),
{
    let ghost s = chars@;
    let mut out: Vec<Vec<char>> = Vec::new();
    let mut cur: Vec<char> = Vec::new();
    let mut depth: i32 = 0;
    let mut in_single = false;
    let mut in_double = false;
    let mut i: usize = 0;
    assert(vecs_view(out@) =~= Seq::<Seq<char>>::empty());
    assert(cur@ =~= Seq::<char>::empty());
    while i < chars.len()
        invariant
            s == chars@, s.len() <= 0x1000_0000, i <= chars.len() + 1,
            stc(s, i as int, cur@, depth as int, in_single, in_double, vecs_view(out@))
                == stc(s, 0, Seq::empty(), 0, false, false, Seq::empty()),
            -(i as int) <= depth <= i,
        decreases chars.len() + 2 - i,
    {
        let ch = chars[i];
        if ch == '\\' {
            cur.push(ch);
            if i + 1 < chars.len() {
                cur.push(chars[i + 1]);
                i += 2;
            } else {
                assert(stc(s, i + 1, cur@, depth as int, in_single, in_double, vecs_view(out@))
                    == stc(s, i + 2, cur@, depth as int, in_single, in_double, vecs_view(out@)));
                i += 1;
            }
            continue;
        }
        if ch == '\'' && !in_double {
            in_single = !in_single;
            cur.push(ch);
        } else if ch == '"' && !in_single {
            in_double = !in_double;
            cur.push(ch);
        } else if !in_single && !in_double && ch == ',' && depth == 0 {
            let t = trim_vec(&cur);
            let ghost o0 = vecs_view(out@);
            out.push(t);
            assert(vecs_view(out@) =~= o0.push(spec_trim(cur@)));
            cur = Vec::new();
            assert(cur@ =~= Seq::<char>::empty());
        } else {
            if !in_single && !in_double {
                if ch == '(' || ch == '[' || ch == '{' {
                    depth += 1;
                } else if ch == ')' || ch == ']' || ch == '}' {
                    depth -= 1;
                }
            }
            cur.push(ch);
        }
        i += 1;
    }
    let t = trim_vec(&cur);
    if t.len() > 0 {
        let ghost o0 = vecs_view(out@);
        out.push(t);
        assert(vecs_view(out@) =~= o0.push(spec_trim(cur@)));
    }
    if out.len() == 0 {
        let w = trim_vec(chars);
        out.push(w);
        assert(vecs_view(out@) =~= seq![spec_trim(s)]);
    }
    out
}

fn strings_of(v: &Vec<Vec<char>>) -> (r: Vec<String>)
    ensures strings_view(r@) == vecs_view(v@),
{
    let mut r: Vec<String> = Vec::new();
    let mut k: usize = 0;
    while k < v.len()
        invariant k <= v.len(), strings_view(r@) == vecs_view(v@).take(k as int),
        decreases v.len() - k,
    {
        let ghost r0 = strings_view(r@);
        let sk = string_of(&v[k]);
        r.push(sk);
        assert(strings_view(r@) =~= r0.push(v@[k as int]@));
        assert(vecs_view(v@).take(k + 1) =~= vecs_view(v@).take(k as int).push(v@[k as int]@));
        k += 1;
        assert(strings_view(r@) =~= vecs_view(v@).take(k as int));
    }
    assert(vecs_view(v@).take(v@.len() as int) =~= vecs_view(v@));
    r
}

/// Splits `s` at commas at bracket depth 0 outside quotes; the pieces are
/// trimmed and an empty last piece dropped, and if there are none the
/// whole trimmed `s` is the only piece.
pub fn split_top_level_commas(s: &str) -> (out: Vec<String>)
    requires s@.len() <= 0x1000_0000,
    ensures strings_view(out@) == stc(s@, 0, Seq::empty(), 0, false, false, Seq::empty()),
{
    let chars = chars_of(s);
    let v = split_commas_vec(&chars);
    strings_of(&v)
}

/// Whether the space at `i` sits just inside an opening bracket or just
/// before a closing bracket or comma.
pub open spec fn drop_space(s: Seq<char>, i: int) -> bool {
    s[i] == ' ' && ((i > 0 && is_open(s[i - 1])) || (i + 1 < s.len() && (is_close(s[i + 1]) || s[i + 1] == ',')))
}

pub open spec fn compact_prefix(s: Seq<char>, k: int) -> Seq<char>
    decreases k,
{
    if k <= 0 { Seq::empty() } else { compact_prefix(s, k - 1) + if drop_space(s, k - 1) { Seq::empty() } else { seq![s[k - 1]] } }
}

/// The first character after position `j` (inclusive) that is not a comma.
pub open spec fn next_non_comma(s: Seq<char>, j: int) -> Option<char>
    decreases s.len() - j,
{
    if j >= s.len() || j < 0 { None } else if s[j] == ',' { next_non_comma(s, j + 1) } else { Some(s[j]) }
}

pub open spec fn drop_comma(s: Seq<char>, i: int, close: char) -> bool {
    s[i] == ',' && next_non_comma(s, i + 1) == Some(close)
}

/// `s.take(k)` without the commas that a run of commas ends in `close`
/// right after (trailing commas before a closing bracket).
pub open spec fn commas_prefix(s: Seq<char>, close: char, k: int) -> Seq<char>
    decreases k,
{
    if k <= 0 { Seq::empty() } else { commas_prefix(s, close, k - 1) + if drop_comma(s, k - 1, close) { Seq::empty() } else { seq![s[k - 1]] } }
}

pub open spec fn spec_drop_commas(s: Seq<char>, close: char) -> Seq<char> {
    commas_prefix(s, close, s.len() as int)
}

/// Scans a double-quoted literal from `j`: the index of its closing quote
/// (or the length of `s`) and whether it holds an unescaped single quote.
pub open spec fn dq_scan(s: Seq<char>, j: int, esc: bool, hs: bool) -> (int, bool)
    decreases s.len() - j,
{
    if j >= s.len() || j < 0 {
        (s.len() as int, hs)
    } else if esc {
        dq_scan(s, j + 1, false, hs)
    } else if s[j] == '\\' {
        dq_scan(s, j + 1, true, hs)
    } else if s[j] == '\'' {
        dq_scan(s, j + 1, false, true)
    } else if s[j] == '"' {
        (j, hs)
    } else {
        dq_scan(s, j + 1, false, hs)
    }
}

/// `s` from `i` on with each closed double-quoted literal re-quoted with
/// single quotes when it holds no unescaped single quote.
pub open spec fn nq(s: Seq<char>, i: int, insq: bool) -> Seq<char>
    decreases s.len() - i,
{
    if i >= s.len() || i < 0 {
        Seq::empty()
    } else if insq {
        if s[i] == '\\' && i + 1 < s.len() {
            seq![s[i], s[i + 1]] + nq(s, i + 2, true)
        } else if s[i] == '\'' {
            seq![s[i]] + nq(s, i + 1, false)
        } else {
            seq![s[i]] + nq(s, i + 1, true)
        }
    } else if s[i] == '\'' {
        seq![s[i]] + nq(s, i + 1, true)
    } else if s[i] == '"' && dq_scan(s, i + 1, false, false).0 < s.len() {
        let (j, hs) = dq_scan(s, i + 1, false, false);
        proof { lemma_dq_scan(s, i + 1, false, false); }
        let q = if hs { '"' } else { '\'' };
        seq![q] + s.subrange(i + 1, j) + seq![q] + nq(s, j + 1, false)
    } else {
        seq![s[i]] + nq(s, i + 1, false)
    }
}

pub proof fn lemma_dq_scan(s: Seq<char>, j: int, esc: bool, hs: bool)
    requires 0 <= j <= s.len(),
    ensures j <= dq_scan(s, j, esc, hs).0 <= s.len(),
    decreases s.len() - j,
{
    if j < s.len() {
        if esc {
            lemma_dq_scan(s, j + 1, false, hs);
        } else if s[j] == '\\' {
            lemma_dq_scan(s, j + 1, true, hs);
        } else if s[j] == '\'' {
            lemma_dq_scan(s, j + 1, false, true);
        } else if s[j] != '"' {
            lemma_dq_scan(s, j + 1, false, hs);
        }
    }
}

/// Rewrites double-quoted literals with single quotes where that needs no
/// escaping.
pub fn normalize_double_to_single_quotes(s: &str) -> (out: String)
    ensures out@ == nq(s@, 0, false),
{
    let chars = chars_of(s);
    let o = nq_vec(&chars);
    string_of(&o)
}

fn nq_vec(chars: &Vec<char>) -> (out: Vec<char>)
    ensures out@ == nq(chars@, 0, false),
{
    let ghost s = chars@;
    let mut out: Vec<char> = Vec::new();
    let mut i: usize = 0;
    let mut in_single = false;
    while i < chars.len()
        invariant
            s == chars@, i <= chars.len(),
            out@ + nq(s, i as int, in_single) == nq(s, 0, false),
        decreases chars.len() - i,
    {
        let ch = chars[i];
        let ghost o0 = out@;
        if in_single {
            out.push(ch);
            if ch == '\\' && i + 1 < chars.len() {
                out.push(chars[i + 1]);
                assert(o0 + nq(s, i as int, true) =~= out@ + nq(s, i + 2, true));
                i += 2;
            } else {
                if ch == '\'' {
                    in_single = false;
                }
                assert(o0 + nq(s, i as int, true) =~= out@ + nq(s, i + 1, in_single));
                i += 1;
            }
            continue;
        }
        if ch == '\'' {
            in_single = true;
            out.push(ch);
            assert(o0 + nq(s, i as int, false) =~= out@ + nq(s, i + 1, true));
            i += 1;
            continue;
        }
        if ch == '"' {
            let mut j = i + 1;
            let mut segment: Vec<char> = Vec::new();
            let mut escaped = false;
            let mut has_single = false;
            while j < chars.len() && (escaped || chars[j] != '"')
                invariant
                    s == chars@, i < j <= chars.len(),
                    segment@ == s.subrange(i + 1, j as int),
                    dq_scan(s, j as int, escaped, has_single) == dq_scan(s, i + 1, false, false),
                decreases chars.len() - j,
            {
                let cj = chars[j];
                segment.push(cj);
                if escaped {
                    escaped = false;
                } else if cj == '\\' {
                    escaped = true;
                } else if cj == '\'' {
                    has_single = true;
                }
                j += 1;
                assert(segment@ =~= s.subrange(i + 1, j as int));
            }
            proof { lemma_dq_scan(s, i + 1, false, false); }
            if j < chars.len() {
                assert(dq_scan(s, j as int, escaped, has_single) == (j as int, has_single));
                let q = if has_single { '"' } else { '\'' };
                out.push(q);
                crate::text::append_chars(&mut out, &segment);
                out.push(q);
                assert(o0 + nq(s, i as int, false) =~= out@ + nq(s, j + 1, false));
                i = j + 1;
                continue;
            }
            assert(dq_scan(s, i + 1, false, false).0 == s.len());
        }
        out.push(ch);
        assert(o0 + nq(s, i as int, false) =~= out@ + nq(s, i + 1, false));
        i += 1;
    }
    assert(out@ =~= nq(s, 0, false));
    out
}

fn compact_vec(s: &Vec<char>) -> (r: Vec<char>)
    ensures r@ == compact_prefix(s@, s@.len() as int),
{
    let mut r: Vec<char> = Vec::new();
    let mut i: usize = 0;
    while i < s.len()
        invariant i <= s.len(), r@ == compact_prefix(s@, i as int),
        decreases s.len() - i,
    {
        let ch = s[i];
        let drop = ch == ' ' && ((i > 0 && (s[i - 1] == '(' || s[i - 1] == '[' || s[i - 1] == '{'))
            || (i + 1 < s.len() && (s[i + 1] == ')' || s[i + 1] == ']' || s[i + 1] == '}' || s[i + 1] == ',')));
        let ghost r0 = r@;
        if !drop {
            r.push(ch);
        }
        i += 1;
        assert(r@ =~= compact_prefix(s@, i as int));
    }
    r
}

fn drop_commas_vec(s: &Vec<char>, close: char) -> (r: Vec<char>)
    ensures r@ == spec_drop_commas(s@, close),
{
    let mut r: Vec<char> = Vec::new();
    let mut i: usize = 0;
    while i < s.len()
        invariant i <= s.len(), r@ == commas_prefix(s@, close, i as int),
        decreases s.len() - i,
    {
        let ch = s[i];
        let mut drop = false;
        if ch == ',' {
            let mut j = i + 1;
            while j < s.len() && s[j] == ','
                invariant i < j <= s.len(), next_non_comma(s@, j as int) == next_non_comma(s@, i + 1),
                decreases s.len() - j,
            {
                j += 1;
            }
            drop = j < s.len() && s[j] == close;
        }
        assert(drop == drop_comma(s@, i as int, close));
        if !drop {
            r.push(ch);
        }
        i += 1;
        assert(r@ =~= commas_prefix(s@, close, i as int));
    }
    r
}

/// The normal form of an expression statement: trimmed, no spaces just
/// inside brackets or before commas, no trailing commas before closing
/// brackets, and double quotes turned into single quotes where possible.
pub open spec fn spec_normalize_expr(code: Seq<char>) -> Seq<char> {
    let t = spec_trim(code);
    let c = compact_prefix(t, t.len() as int);
    nq(spec_drop_commas(spec_drop_commas(c, ')'), ']'), 0, false)
}

pub fn normalize_expr_text(code: &str) -> (r: String)
    ensures r@ == spec_normalize_expr(code@),
{
    let v = normalize_expr_vec(&chars_of(code));
    string_of(&v)
}

fn normalize_expr_vec(code: &Vec<char>) -> (r: Vec<char>)
    ensures r@ == spec_normalize_expr(code@),
{
    let t = trim_vec(code);
    let c = compact_vec(&t);
    let a = drop_commas_vec(&c, ')');
    let b = drop_commas_vec(&a, ']');
    nq_vec(&b)
}

/// The header of a loop line: trailing colons and surrounding whitespace
/// dropped; for a `for` loop, spacing normalised to `for T in E`, with a
/// tuple target put in parentheses.
pub open spec fn spec_norm_loop(code: Seq<char>) -> Seq<char> {
    let trimmed = spec_trim(spec_trim_end_char(code, ':'));
    if !spec_starts_with_kw(trimmed, "for"@) {
        trimmed
    } else {
        let rest = spec_trim(trimmed.skip("for"@.len() as int));
        match first_occurrence(rest, " in "@, 0) {
            Some(p) => {
                let target = spec_trim(rest.take(p));
                let iter = spec_trim(rest.skip(p + " in "@.len()));
                let paren = target.len() > 0 && target[0] == '(' && target.last() == ')';
                let tf = if target.contains(',') && !paren { seq!['('] + target + seq![')'] } else { target };
                "for "@ + tf + " in "@ + iter
            },
            None => trimmed,
        }
    }
}

fn vec_has_char(v: &Vec<char>, c: char) -> (r: bool)
    ensures r == v@.contains(c),
{
    let mut i: usize = 0;
    while i < v.len()
        invariant i <= v.len(), forall|k: int| 0 <= k < i ==> v@[k] != c,
        decreases v.len() - i,
    {
        if v[i] == c {
            return true;
        }
        i += 1;
    }
    false
}

fn lit(s: &str) -> (r: Vec<char>)
    ensures r@ == s@,
{
    chars_of(s)
}

pub fn normalize_loop_header(code: &str) -> (r: String)
    ensures r@ == spec_norm_loop(code@),
{
    let c = chars_of(code);
    let t0 = trim_end_char_vec(&c, ':');
    let trimmed = trim_vec(&t0);
    let ts = string_of(&trimmed);
    if !starts_with_kw(ts.as_str(), "for") {
        return ts;
    }
    let kw = lit("for");
    let after = slice_vec(&trimmed, kw.len(), trimmed.len());
    assert(after@ =~= trimmed@.skip("for"@.len() as int));
    let rest = trim_vec(&after);
    let sep = lit(" in ");
    match find_vec(&rest, &sep, 0) {
        Some(p) => {
            proof { crate::text::lemma_first_occurrence(rest@, sep@, 0); }
            assert(crate::text::occurs_at(rest@, sep@, p as int));
            let head = slice_vec(&rest, 0, p);
            assert(head@ =~= rest@.take(p as int));
            let sl = sep.len();
            let rl = rest.len();
            let tail = slice_vec(&rest, p + sl, rl);
            assert(tail@ =~= rest@.skip(p + " in "@.len()));
            let target = trim_vec(&head);
            let iter = trim_vec(&tail);
            let paren = target.len() > 0 && target[0] == '(' && target[target.len() - 1] == ')';
            let mut out = lit("for ");
            if vec_has_char(&target, ',') && !paren {
                out.push('(');
                append_chars(&mut out, &target);
                out.push(')');
            } else {
                append_chars(&mut out, &target);
            }
            append_chars(&mut out, &sep);
            append_chars(&mut out, &iter);
            proof {
                let tf = if target@.contains(',') && !paren { seq!['('] + target@ + seq![')'] } else { target@ };
                assert(out@ =~= "for "@ + tf + " in "@ + iter@);
            }
            string_of(&out)
        },
        None => ts,
    }
}

/// The names assigned to: each comma piece of the left-hand side, cut at
/// its first `:` (a type annotation), trimmed, empty ones dropped.
pub open spec fn assign_names(parts: Seq<Seq<char>>, k: int) -> Seq<Seq<char>>
    decreases k,
{
    if k <= 0 {
        Seq::empty()
    } else {
        let n = spec_trim(spec_before_char(spec_trim(parts[k - 1]), ':'));
        if n.len() > 0 { assign_names(parts, k - 1).push(n) } else { assign_names(parts, k - 1) }
    }
}

pub open spec fn is_augmented(code: Seq<char>) -> bool {
    seq_contains(code, "+="@) || seq_contains(code, "-="@) || seq_contains(code, "*="@) || seq_contains(code, "/="@)
        || seq_contains(code, "%="@)
}

pub open spec fn take_at_most(s: Seq<char>, n: int) -> Seq<char> {
    if s.len() <= n { s } else { s.take(n) }
}

/// The node text of a single statement line.
pub open spec fn spec_stmt_text(code: Seq<char>) -> Seq<char> {
    if spec_starts_with_kw(code, "return"@) {
        "Return"@
    } else if spec_starts_with_kw(code, "raise"@) {
        "Raise"@
    } else if spec_starts_with_kw(code, "import"@) {
        "Import: "@ + spec_trim(code.skip("import"@.len() as int))
    } else if spec_starts_with_kw(code, "from"@) && seq_contains(code, " import "@) {
        "From "@ + (if seq_starts_with(code, "from "@) { code.skip("from "@.len() as int) } else { code })
    } else if spec_starts_with_kw(code, "def"@) || spec_starts_with_kw(code, "class"@) {
        spec_trim_end_char(code, ':')
    } else if spec_starts_with_kw(code, "with"@) {
        "with ..."@
    } else if code == "break"@ {
        "break"@
    } else if code == "continue"@ {
        "continue"@
    } else if is_augmented(code) {
        "Update: "@ + spec_trim(spec_before_char(code, '='))
    } else if hta(code, 0, 0, false, false) {
        let parts = stc(spec_trim(spec_before_char(code, '=')), 0, Seq::empty(), 0, false, false, Seq::empty());
        "Assign: "@ + spec_join(assign_names(parts, parts.len() as int), ", "@)
    } else {
        "Expr: "@ + take_at_most(spec_normalize_expr(code), 100)
    }
}

fn concat2(a: &str, b: &Vec<char>) -> (r: Vec<char>)
    ensures r@ == a@ + b@,
{
    let mut r = lit(a);
    append_chars(&mut r, b);
    r
}

fn stmt_text_vec(code: &str) -> (r: Vec<char>)
    requires code@.len() <= 0x1000_0000,
    ensures r@ == spec_stmt_text(code@),
{
    let c = chars_of(code);
    if starts_with_kw(code, "return") {
        return lit("Return");
    }
    if starts_with_kw(code, "raise") {
        return lit("Raise");
    }
    if starts_with_kw(code, "import") {
        let k = lit("import");
        let rest = slice_vec(&c, k.len(), c.len());
        assert(rest@ =~= code@.skip("import"@.len() as int));
        return concat2("Import: ", &trim_vec(&rest));
    }
    if starts_with_kw(code, "from") && contains_vec(&c, &lit(" import ")) {
        let k = lit("from ");
        if starts_with_vec(&c, &k) {
            let rest = slice_vec(&c, k.len(), c.len());
            assert(rest@ =~= code@.skip("from "@.len() as int));
            return concat2("From ", &rest);
        }
        return concat2("From ", &c);
    }
    if starts_with_kw(code, "def") || starts_with_kw(code, "class") {
        return trim_end_char_vec(&c, ':');
    }
    if starts_with_kw(code, "with") {
        return lit("with ...");
    }
    if str_eq(code, "break") {
        return lit("break");
    }
    if str_eq(code, "continue") {
        return lit("continue");
    }
    if contains_vec(&c, &lit("+=")) || contains_vec(&c, &lit("-=")) || contains_vec(&c, &lit("*="))
        || contains_vec(&c, &lit("/=")) || contains_vec(&c, &lit("%=")) {
        let lhs = trim_vec(&before_char(&c, '='));
        return concat2("Update: ", &lhs);
    }
    if has_top_level_assignment(code) {
        let lhs = trim_vec(&before_char(&c, '='));
        proof {
            crate::text::lemma_first_char_idx(code@, '=', 0);
            crate::text::lemma_trim_len(spec_before_char(code@, '='));
        }
        let parts = split_commas_vec(&lhs);
        let ghost ps = vecs_view(parts@);
        let mut names: Vec<Vec<char>> = Vec::new();
        let mut k: usize = 0;
        while k < parts.len()
            invariant k <= parts.len(), ps == vecs_view(parts@), vecs_view(names@) == assign_names(ps, k as int),
            decreases parts.len() - k,
        {
            let n = trim_vec(&before_char(&trim_vec(&parts[k]), ':'));
            assert(n@ == spec_trim(spec_before_char(spec_trim(ps[k as int]), ':')));
            if n.len() > 0 {
                let ghost n0 = vecs_view(names@);
                names.push(n);
                assert(vecs_view(names@) =~= n0.push(names@.last()@));
            }
            k += 1;
        }
        let joined = join_vecs(&names, &lit(", "));
        return concat2("Assign: ", &joined);
    }
    let e = normalize_expr_vec(&c);
    let e2 = if e.len() <= 100 { e } else { slice_vec(&e, 0, 100) };
    assert(e2@ =~= take_at_most(spec_normalize_expr(code@), 100));
    concat2("Expr: ", &e2)
}

/// The node text of one statement: `Return`, `Raise`, `Import: ...`,
/// `Update: x`, `Assign: a, b`, `Expr: ...` and the like.
pub fn stmt_text_from_line(code: &str) -> (r: String)
    requires code@.len() <= 0x1000_0000,
    ensures r@ == spec_stmt_text(code@),
{
    string_of(&stmt_text_vec(code))
}

/// The text of a merged process block: the statement texts of its lines,
/// at most four of them, joined with ` | `, with a count of the rest.
pub open spec fn spec_summarize(codes: Seq<Seq<char>>) -> Seq<char> {
    let labels = codes.map_values(|c: Seq<char>| spec_stmt_text(c));
    if labels.len() == 1 {
        labels[0]
    } else {
        let preview = if labels.len() <= 4 { labels } else { labels.take(4) };
        let preview2 = if labels.len() > 4 {
            preview.push("... +"@ + spec_decimal((labels.len() - 4) as nat) + " more"@)
        } else {
            preview
        };
        spec_join(preview2, " | "@)
    }
}

pub open spec fn codes_of(lines: Seq<LineInfo>) -> Seq<Seq<char>> {
    lines.map_values(|l: LineInfo| l.code@)
}

pub open spec fn codes_ok(lines: Seq<LineInfo>) -> bool {
    forall|k: int| 0 <= k < lines.len() ==> (#[trigger] lines[k]).code@.len() <= 0x1000_0000
}

pub fn summarize_group(lines: &[LineInfo]) -> (r: String)
    requires codes_ok(lines@),
    ensures r@ == spec_summarize(codes_of(lines@)),
{
    let ghost labels = codes_of(lines@).map_values(|c: Seq<char>| spec_stmt_text(c));
    let mut labs: Vec<Vec<char>> = Vec::new();
    let mut k: usize = 0;
    while k < lines.len()
        invariant
            k <= lines.len(), codes_ok(lines@),
            labels == codes_of(lines@).map_values(|c: Seq<char>| spec_stmt_text(c)),
            vecs_view(labs@) == labels.take(k as int),
        decreases lines.len() - k,
    {
        let ghost l0 = vecs_view(labs@);
        assert(lines@[k as int].code@.len() <= 0x1000_0000);
        let t = stmt_text_vec(lines[k].code.as_str());
        labs.push(t);
        assert(vecs_view(labs@) =~= l0.push(labels[k as int]));
        k += 1;
        assert(labels.take(k as int) =~= labels.take(k - 1).push(labels[k - 1]));
    }
    assert(labels.take(lines.len() as int) =~= labels);
    if labs.len() == 1 {
        return string_of(&labs[0]);
    }
    let n = labs.len();
    let mut preview: Vec<Vec<char>> = Vec::new();
    let mut k: usize = 0;
    while k < n && k < 4
        invariant k <= n, n == labs.len(), k <= 4, vecs_view(preview@) == vecs_view(labs@).take(k as int),
        decreases n - k,
    {
        let ghost p0 = vecs_view(preview@);
        preview.push(slice_vec(&labs[k], 0, labs[k].len()));
        assert(labs[k as int]@.subrange(0, labs[k as int]@.len() as int) =~= labs[k as int]@);
        assert(vecs_view(preview@) =~= p0.push(vecs_view(labs@)[k as int]));
        k += 1;
        assert(vecs_view(labs@).take(k as int) =~= vecs_view(labs@).take(k - 1).push(vecs_view(labs@)[k - 1]));
    }
    proof {
        if n <= 4 { assert(vecs_view(labs@).take(n as int) =~= vecs_view(labs@)); }
    }
    if n > 4 {
        let mut more = lit("... +");
        append_chars(&mut more, &decimal(n - 4));
        append_chars(&mut more, &lit(" more"));
        let ghost p0 = vecs_view(preview@);
        preview.push(more);
        assert(vecs_view(preview@) =~= p0.push(preview@.last()@));
    }
    let j = join_vecs(&preview, &lit(" | "));
    string_of(&j)
}

pub open spec fn gs(gb: GraphBuilder) -> GState {
    GState { nodes: nodes_view(gb.nodes@), edges: edges_view(gb.edges@), next_id: gb.next_id as int }
}

/// `GraphBuilder::add_node` on plain values: the new state and the id.
pub open spec fn g_add(g: GState, shape: Shape, text: Seq<char>, ls: Option<usize>, le: Option<usize>, lane: int) -> (GState, usize) {
    let id = g.next_id as usize;
    (GState {
        nodes: g.nodes.push(NodeView {
            id, shape, text: spec_clip_text(text), line_start: ls,
            line_end: if le is Some { le } else { ls }, lane: lane as i32, level: None,
        }),
        edges: g.edges,
        next_id: g.next_id + 1,
    }, id)
}

/// The condition of an `if`/`elif` line: the text after the keyword,
/// trailing colons dropped and trimmed.
pub open spec fn spec_cond_text(code: Seq<char>) -> Seq<char> {
    let t = spec_trim_end_char(code, ':');
    if t.contains(' ') { spec_trim(t.skip(crate::text::first_char_idx(t, ' ', 0) + 1)) } else { code }
}

/// End of a run of groupable statements starting at `idx` that may be
/// merged into one block of at most `m` statements.
pub open spec fn group_end(l: Seq<LineView>, j: int, ind: usize, m: usize, idx: int) -> int
    decreases l.len() - j,
{
    if j < l.len() && j - idx < m && l[j].indent == ind && spec_is_groupable(l[j].code) {
        group_end(l, j + 1, ind, m, idx)
    } else {
        j
    }
}

pub type WRes = (GState, Seq<ExitV>, int);

/// Whether a nested parse ending at `x` moved past line `idx`.
pub open spec fn adv(x: int, idx: int, len: nat) -> bool {
    idx < x <= len
}

/// The statements from line `idx` of a block at indentation `ind`, given
/// the exits `cur` that flow into them: the graph afterwards, the exits of
/// the block, and the first line after it (the first line indented less).
/// Lines indented deeper that no statement claims are skipped.
pub open spec fn w_walk(g: GState, l: Seq<LineView>, idx: int, ind: usize, cur: Seq<ExitV>, lane: int, c: bool, m: usize) -> WRes
    decreases l.len() - idx, 3int,
{
    if idx < 0 || idx >= l.len() || l[idx].indent < ind {
        (g, cur, idx)
    } else if l[idx].indent > ind {
        w_walk(g, l, idx + 1, ind, cur, lane, c, m)
    } else {
        let st = w_stmt(g, l, idx, ind, cur, lane, c, m);
        if adv(st.2, idx, l.len()) { w_walk(st.0, l, st.2, ind, st.1, lane, c, m) } else { st }
    }
}

/// One statement starting at line `idx`: the graph after it, its exits,
/// and the line after it.
pub open spec fn w_stmt(g: GState, l: Seq<LineView>, idx: int, ind: usize, cur: Seq<ExitV>, lane: int, c: bool, m: usize) -> WRes
    decreases l.len() - idx, 2int,
{
    if idx < 0 || idx >= l.len() {
        (g, cur, idx)
    } else {
        let code = l[idx].code;
        if spec_starts_with_kw(code, "if"@) {
            w_if(g, l, idx, ind, cur, lane, Seq::empty(), c, m)
        } else if spec_starts_with_kw(code, "for"@) || spec_starts_with_kw(code, "while"@) {
            w_loop_stmt(g, l, idx, ind, cur, lane, c, m)
        } else if spec_starts_with_kw(code, "try"@) {
            w_try_stmt(g, l, idx, ind, cur, lane, c, m)
        } else if spec_starts_with_kw(code, "def"@) {
            w_def_stmt(g, l, idx, ind, cur, lane, c, m)
        } else if spec_starts_with_kw(code, "with"@) {
            w_with_stmt(g, l, idx, ind, cur, lane, c, m)
        } else if c && spec_is_groupable(code) {
            w_group_stmt(g, l, idx, ind, cur, lane, m)
        } else {
            let here = Some(l[idx].lineno);
            let (g1, pid) = g_add(g, Shape::Process, spec_stmt_text(code), here, here, lane);
            (g_connect(g1, cur, pid), bare_exit(pid), idx + 1)
        }
    }
}

/// A `for`/`while` loop: a loop node entered by `cur`; its body entered
/// by `enter` and looping back by `next` edges; left by `done`, through
/// the `else` body when there is one.
pub open spec fn w_loop_stmt(g: GState, l: Seq<LineView>, idx: int, ind: usize, cur: Seq<ExitV>, lane: int, c: bool, m: usize) -> WRes
    decreases l.len() - idx, 1int,
{
    if idx < 0 || idx >= l.len() {
        (g, cur, idx)
    } else {
        let code = l[idx].code;
        let here = Some(l[idx].lineno);
        let header = if spec_starts_with_kw(code, "for"@) { spec_norm_loop(code) } else { spec_trim_end_char(code, ':') };
        let (g1, lid) = g_add(g, Shape::Loop, header, here, here, lane);
        let g2 = g_connect(g1, cur, lid);
        let i1 = idx + 1;
        let enter = one_exit(lid, "enter"@);
        let b = if i1 < l.len() && l[i1].indent > ind { w_walk(g2, l, i1, l[i1].indent, enter, lane, c, m) } else { (g2, enter, i1) };
        let g4 = GState { edges: b.0.edges + next_edges(b.1, lid), ..b.0 };
        let i2 = b.2;
        let done = one_exit(lid, "done"@);
        if !adv(i2, idx, l.len()) {
            b
        } else if i2 < l.len() && l[i2].indent == ind && l[i2].code == "else:"@ {
            let i3 = i2 + 1;
            if i3 < l.len() && l[i3].indent > ind { w_walk(g4, l, i3, l[i3].indent, done, lane + 1, c, m) } else { (g4, done, i3) }
        } else {
            (g4, done, i2)
        }
    }
}

/// A `try` statement: a decision node whose `try` exit enters the body,
/// followed by its `except`/`else`/`finally` clauses; with no exits at
/// all the decision node itself is the exit.
pub open spec fn w_try_stmt(g: GState, l: Seq<LineView>, idx: int, ind: usize, cur: Seq<ExitV>, lane: int, c: bool, m: usize) -> WRes
    decreases l.len() - idx, 1int,
{
    if idx < 0 || idx >= l.len() {
        (g, cur, idx)
    } else {
        let here = Some(l[idx].lineno);
        let (g1, did) = g_add(g, Shape::Decision, "try/except"@, here, here, lane);
        let g2 = g_connect(g1, cur, did);
        let i1 = idx + 1;
        let tr = one_exit(did, "try"@);
        let b = if i1 < l.len() && l[i1].indent > ind { w_walk(g2, l, i1, l[i1].indent, tr, lane, c, m) } else { (g2, tr, i1) };
        if !adv(b.2, idx, l.len()) {
            b
        } else {
            let t = w_try(b.0, l, b.2, ind, did, b.1, lane, c, m);
            (t.0, if t.1.len() == 0 { bare_exit(did) } else { t.1 }, t.2)
        }
    }
}

/// A `def`: a process node with the signature; its body, one lane to the
/// right, is entered by `enter`.
pub open spec fn w_def_stmt(g: GState, l: Seq<LineView>, idx: int, ind: usize, cur: Seq<ExitV>, lane: int, c: bool, m: usize) -> WRes
    decreases l.len() - idx, 1int,
{
    if idx < 0 || idx >= l.len() {
        (g, cur, idx)
    } else {
        let here = Some(l[idx].lineno);
        let (g1, fid) = g_add(g, Shape::Process, spec_stmt_text(l[idx].code), here, here, lane);
        let g2 = g_connect(g1, cur, fid);
        let i1 = idx + 1;
        if i1 < l.len() && l[i1].indent > ind {
            w_walk(g2, l, i1, l[i1].indent, one_exit(fid, "enter"@), lane + 1, c, m)
        } else {
            (g2, bare_exit(fid), i1)
        }
    }
}

/// A `with`: a process node followed by its body.
pub open spec fn w_with_stmt(g: GState, l: Seq<LineView>, idx: int, ind: usize, cur: Seq<ExitV>, lane: int, c: bool, m: usize) -> WRes
    decreases l.len() - idx, 1int,
{
    if idx < 0 || idx >= l.len() {
        (g, cur, idx)
    } else {
        let here = Some(l[idx].lineno);
        let (g1, wid) = g_add(g, Shape::Process, "with ..."@, here, here, lane);
        let g2 = g_connect(g1, cur, wid);
        let i1 = idx + 1;
        if i1 < l.len() && l[i1].indent > ind {
            w_walk(g2, l, i1, l[i1].indent, bare_exit(wid), lane, c, m)
        } else {
            (g2, bare_exit(wid), i1)
        }
    }
}

/// A run of at most `m` plain statements merged into one process node.
pub open spec fn w_group_stmt(g: GState, l: Seq<LineView>, idx: int, ind: usize, cur: Seq<ExitV>, lane: int, m: usize) -> WRes {
    let j = group_end(l, idx + 1, ind, m, idx);
    if idx < 0 || !adv(j, idx, l.len()) {
        (g, cur, idx)
    } else {
        let codes = l.subrange(idx, j).map_values(|x: LineView| x.code);
        let (g1, pid) = g_add(g, Shape::Process, spec_summarize(codes), Some(l[idx].lineno), Some(l[j - 1].line_end), lane);
        (g_connect(g1, cur, pid), bare_exit(pid), j)
    }
}

/// The `if`/`elif`/`else` chain from line `idx`: `fo` collects the exits of
/// the branches handled so far and `cur` the `no` exit of the last test.
pub open spec fn w_if(g: GState, l: Seq<LineView>, idx: int, ind: usize, cur: Seq<ExitV>, lane: int, fo: Seq<ExitV>, c: bool, m: usize) -> WRes
    decreases l.len() - idx, 1int,
{
    if idx < 0 || idx >= l.len() || l[idx].indent != ind
        || !(spec_starts_with_kw(l[idx].code, "if"@) || spec_starts_with_kw(l[idx].code, "elif"@)) {
        (g, fo + cur, idx)
    } else {
        let li = l[idx];
        let here = Some(li.lineno);
        let (g1, did) = g_add(g, Shape::Decision, "if "@ + spec_cond_text(li.code), here, here, lane);
        let g2 = g_connect(g1, cur, did);
        let yes = one_exit(did, "yes"@);
        let b = if idx + 1 < l.len() && l[idx + 1].indent > ind {
            w_walk(g2, l, idx + 1, l[idx + 1].indent, yes, lane - 1, c, m)
        } else {
            (g2, yes, idx + 1)
        };
        let i1 = b.2;
        let fo2 = fo + b.1;
        let no = one_exit(did, "no"@);
        if !adv(i1, idx, l.len()) {
            b
        } else if i1 >= l.len() || l[i1].indent != ind || (!spec_starts_with_kw(l[i1].code, "elif"@) && l[i1].code != "else:"@) {
            (b.0, fo2 + no, i1)
        } else if l[i1].code == "else:"@ {
            let e = if i1 + 1 < l.len() && l[i1 + 1].indent > ind {
                w_walk(b.0, l, i1 + 1, l[i1 + 1].indent, no, lane + 1, c, m)
            } else {
                (b.0, no, i1 + 1)
            };
            (e.0, fo2 + e.1, e.2)
        } else {
            w_if(b.0, l, i1, ind, no, lane + 1, fo2, c, m)
        }
    }
}

/// The `except`/`else`/`finally` clauses of a `try` from line `idx`, with
/// `out` the exits gathered so far.
pub open spec fn w_try(g: GState, l: Seq<LineView>, idx: int, ind: usize, did: usize, out: Seq<ExitV>, lane: int, c: bool, m: usize) -> WRes
    decreases l.len() - idx, 1int,
{
    if idx < 0 || idx >= l.len() || l[idx].indent != ind {
        (g, out, idx)
    } else {
        let cc = spec_trim_end_char(l[idx].code, ':');
        let i1 = idx + 1;
        let nested = i1 < l.len() && l[i1].indent > ind;
        if spec_starts_with_kw(cc, "except"@) {
            if nested {
                let b = w_walk(g, l, i1, l[i1].indent, one_exit(did, cc), lane + 1, c, m);
                if adv(b.2, idx, l.len()) { w_try(b.0, l, b.2, ind, did, out + b.1, lane, c, m) } else { b }
            } else {
                w_try(g, l, i1, ind, did, out + one_exit(did, cc), lane, c, m)
            }
        } else if cc == "else"@ {
            if nested {
                let b = w_walk(g, l, i1, l[i1].indent, one_exit(did, "else"@), lane, c, m);
                if adv(b.2, idx, l.len()) { w_try(b.0, l, b.2, ind, did, out + b.1, lane, c, m) } else { b }
            } else {
                w_try(g, l, i1, ind, did, out, lane, c, m)
            }
        } else if cc == "finally"@ {
            if nested {
                let b = w_walk(g, l, i1, l[i1].indent, out, lane, c, m);
                if adv(b.2, idx, l.len()) { w_try(b.0, l, b.2, ind, did, b.1, lane, c, m) } else { b }
            } else {
                w_try(g, l, i1, ind, did, out, lane, c, m)
            }
        } else {
            (g, out, idx)
        }
    }
}

proof fn lemma_g_add(g: GState, shape: Shape, text: Seq<char>, ls: Option<usize>, le: Option<usize>, lane: int, cur: Seq<ExitV>)
    requires 0 <= g.next_id,
    ensures ({
        let (g1, id) = g_add(g, shape, text, ls, le, lane);
        &&& grows(g, g1) && grows(g, g_connect(g1, cur, id))
        &&& g1.next_id == g.next_id + 1 && g_connect(g1, cur, id).next_id == g.next_id + 1
        &&& (g.next_id <= usize::MAX ==> id as int == g.next_id)
    }),
{
    let (g1, id) = g_add(g, shape, text, ls, le, lane);
    assert(g1.nodes.take(g.nodes.len() as int) =~= g.nodes);
    assert(g1.edges =~= g.edges);
    let g2 = g_connect(g1, cur, id);
    assert(g2.edges.take(g.edges.len() as int) =~= g.edges);
    assert forall|j: int| g2.next_id <= usize::MAX + 1 && g.edges.len() <= j < g2.edges.len() implies (#[trigger] g2.edges[j]).to >= g.next_id by {
        assert(g2.edges[j] == spec_connect_edges(cur, id, None)[j - g.edges.len()]);
    }
    lemma_grows_refl(g);
}

/// Walking a block only adds to the graph: the nodes and edges before it
/// stay in front, ids only grow, and every new edge leads to a new node;
/// exits flowing in leave by at least one exit.
/// Whether the statement at line `idx` is a run of plain statements that
/// may be merged into one node.
pub open spec fn is_group_stmt(code: Seq<char>, c: bool) -> bool {
    &&& !spec_starts_with_kw(code, "if"@) && !spec_starts_with_kw(code, "for"@) && !spec_starts_with_kw(code, "while"@)
    &&& !spec_starts_with_kw(code, "try"@) && !spec_starts_with_kw(code, "def"@) && !spec_starts_with_kw(code, "with"@)
    &&& c && spec_is_groupable(code)
}

/// Every statement is entered by all the exits that flow into it: for each
/// incoming exit there is an edge, with that exit's label, to the
/// statement's node (a merged run of statements included, once it holds at
/// least one line).
pub proof fn lemma_py_entered(g: GState, l: Seq<LineView>, idx: int, ind: usize, cur: Seq<ExitV>, lane: int, c: bool, m: usize)
    requires
        0 <= idx < l.len(), l[idx].indent == ind, 0 <= g.next_id,
        is_group_stmt(l[idx].code, c) ==> adv(group_end(l, idx + 1, ind, m, idx), idx, l.len()),
    ensures forall|i: int| 0 <= i < cur.len() ==> w_stmt(g, l, idx, ind, cur, lane, c, m).0.edges.contains(
        EdgeView { from: (#[trigger] cur[i]).0, to: g.next_id as usize, label: cur[i].1, back_edge: false }),
{
    let id = g.next_id as usize;
    let code = l[idx].code;
    let here = Some(l[idx].lineno);
    let r = w_stmt(g, l, idx, ind, cur, lane, c, m);
    let (shape, text, ls, le): (Shape, Seq<char>, Option<usize>, Option<usize>) = if spec_starts_with_kw(code, "if"@) {
        (Shape::Decision, "if "@ + spec_cond_text(code), here, here)
    } else if spec_starts_with_kw(code, "for"@) || spec_starts_with_kw(code, "while"@) {
        (Shape::Loop, if spec_starts_with_kw(code, "for"@) { spec_norm_loop(code) } else { spec_trim_end_char(code, ':') }, here, here)
    } else if spec_starts_with_kw(code, "try"@) {
        (Shape::Decision, "try/except"@, here, here)
    } else if spec_starts_with_kw(code, "def"@) {
        (Shape::Process, spec_stmt_text(code), here, here)
    } else if spec_starts_with_kw(code, "with"@) {
        (Shape::Process, "with ..."@, here, here)
    } else if c && spec_is_groupable(code) {
        let j = group_end(l, idx + 1, ind, m, idx);
        (Shape::Process, spec_summarize(l.subrange(idx, j).map_values(|x: LineView| x.code)), here, Some(l[j - 1].line_end))
    } else {
        (Shape::Process, spec_stmt_text(code), here, here)
    };
    let g1 = g_add(g, shape, text, ls, le, lane).0;
    let g2 = g_connect(g1, cur, id);
    lemma_connect_has(g1, cur, id);
    assert(g2.next_id == g.next_id + 1);
    let i1 = idx + 1;
    assert forall|i: int| 0 <= i < cur.len() implies r.0.edges.contains(
        EdgeView { from: (#[trigger] cur[i]).0, to: id, label: cur[i].1, back_edge: false }) by {
        let e = EdgeView { from: cur[i].0, to: id, label: cur[i].1, back_edge: false };
        if spec_starts_with_kw(code, "if"@) {
            let yes = one_exit(id, "yes"@);
            let b = if i1 < l.len() && l[i1].indent > ind { w_walk(g2, l, i1, l[i1].indent, yes, lane - 1, c, m) } else { (g2, yes, i1) };
            if i1 < l.len() && l[i1].indent > ind { lemma_w_walk(g2, l, i1, l[i1].indent, yes, lane - 1, c, m); } else { lemma_grows_refl(g2); }
            lemma_grows_keeps_edge(g2, b.0, e);
            let j1 = b.2;
            let no = one_exit(id, "no"@);
            if adv(j1, idx, l.len()) && !(j1 >= l.len() || l[j1].indent != ind || (!spec_starts_with_kw(l[j1].code, "elif"@) && l[j1].code != "else:"@)) {
                if l[j1].code == "else:"@ {
                    if j1 + 1 < l.len() && l[j1 + 1].indent > ind {
                        lemma_w_walk(b.0, l, j1 + 1, l[j1 + 1].indent, no, lane + 1, c, m);
                        lemma_grows_keeps_edge(b.0, w_walk(b.0, l, j1 + 1, l[j1 + 1].indent, no, lane + 1, c, m).0, e);
                    }
                } else {
                    lemma_w_if(b.0, l, j1, ind, no, lane + 1, b.1, c, m);
                    lemma_grows_keeps_edge(b.0, w_if(b.0, l, j1, ind, no, lane + 1, b.1, c, m).0, e);
                }
            }
        } else if spec_starts_with_kw(code, "for"@) || spec_starts_with_kw(code, "while"@) {
            let enter = one_exit(id, "enter"@);
            let b = if i1 < l.len() && l[i1].indent > ind { w_walk(g2, l, i1, l[i1].indent, enter, lane, c, m) } else { (g2, enter, i1) };
            if i1 < l.len() && l[i1].indent > ind { lemma_w_walk(g2, l, i1, l[i1].indent, enter, lane, c, m); } else { lemma_grows_refl(g2); }
            lemma_grows_keeps_edge(g2, b.0, e);
            let g4 = GState { edges: b.0.edges + next_edges(b.1, id), ..b.0 };
            lemma_append_keeps_edge(b.0.edges, next_edges(b.1, id), e);
            let i2 = b.2;
            if adv(i2, idx, l.len()) && i2 < l.len() && l[i2].indent == ind && l[i2].code == "else:"@ {
                let i3 = i2 + 1;
                if i3 < l.len() && l[i3].indent > ind {
                    let done = one_exit(id, "done"@);
                    lemma_w_walk(g4, l, i3, l[i3].indent, done, lane + 1, c, m);
                    lemma_grows_keeps_edge(g4, w_walk(g4, l, i3, l[i3].indent, done, lane + 1, c, m).0, e);
                }
            }
        } else if spec_starts_with_kw(code, "try"@) {
            let tr = one_exit(id, "try"@);
            let b = if i1 < l.len() && l[i1].indent > ind { w_walk(g2, l, i1, l[i1].indent, tr, lane, c, m) } else { (g2, tr, i1) };
            if i1 < l.len() && l[i1].indent > ind { lemma_w_walk(g2, l, i1, l[i1].indent, tr, lane, c, m); } else { lemma_grows_refl(g2); }
            lemma_grows_keeps_edge(g2, b.0, e);
            if adv(b.2, idx, l.len()) {
                lemma_w_try(b.0, l, b.2, ind, id, b.1, lane, c, m);
                lemma_grows_keeps_edge(b.0, w_try(b.0, l, b.2, ind, id, b.1, lane, c, m).0, e);
            }
        } else if spec_starts_with_kw(code, "def"@) {
            if i1 < l.len() && l[i1].indent > ind {
                lemma_w_walk(g2, l, i1, l[i1].indent, one_exit(id, "enter"@), lane + 1, c, m);
                lemma_grows_keeps_edge(g2, w_walk(g2, l, i1, l[i1].indent, one_exit(id, "enter"@), lane + 1, c, m).0, e);
            }
        } else if spec_starts_with_kw(code, "with"@) {
            if i1 < l.len() && l[i1].indent > ind {
                lemma_w_walk(g2, l, i1, l[i1].indent, bare_exit(id), lane, c, m);
                lemma_grows_keeps_edge(g2, w_walk(g2, l, i1, l[i1].indent, bare_exit(id), lane, c, m).0, e);
            }
        }
    }
}

/// Statements follow one another: when the statement at line `idx` is
/// followed by another at the same indentation, every exit of the first is
/// joined, with its label, to the node of the second.
pub proof fn lemma_py_walk_chains(g: GState, l: Seq<LineView>, idx: int, ind: usize, cur: Seq<ExitV>, lane: int, c: bool, m: usize)
    requires 0 <= idx < l.len(), l[idx].indent == ind, 0 <= g.next_id,
    ensures ({
        let st = w_stmt(g, l, idx, ind, cur, lane, c, m);
        let j = st.2;
        adv(j, idx, l.len()) && j < l.len() && l[j].indent == ind
            && (is_group_stmt(l[j].code, c) ==> adv(group_end(l, j + 1, ind, m, j), j, l.len()))
            ==> forall|i: int| 0 <= i < st.1.len() ==> w_walk(g, l, idx, ind, cur, lane, c, m).0.edges.contains(
                EdgeView { from: (#[trigger] st.1[i]).0, to: st.0.next_id as usize, label: st.1[i].1, back_edge: false })
    }),
{
    let st = w_stmt(g, l, idx, ind, cur, lane, c, m);
    let j = st.2;
    if adv(j, idx, l.len()) && j < l.len() && l[j].indent == ind
        && (is_group_stmt(l[j].code, c) ==> adv(group_end(l, j + 1, ind, m, j), j, l.len())) {
        lemma_w_stmt(g, l, idx, ind, cur, lane, c, m);
        lemma_py_entered(st.0, l, j, ind, st.1, lane, c, m);
        let st2 = w_stmt(st.0, l, j, ind, st.1, lane, c, m);
        assert(w_walk(g, l, idx, ind, cur, lane, c, m) == w_walk(st.0, l, j, ind, st.1, lane, c, m));
        assert(w_walk(st.0, l, j, ind, st.1, lane, c, m) == (if adv(st2.2, j, l.len()) {
            w_walk(st2.0, l, st2.2, ind, st2.1, lane, c, m) } else { st2 }));
        assert forall|i: int| 0 <= i < st.1.len() implies w_walk(g, l, idx, ind, cur, lane, c, m).0.edges.contains(
            EdgeView { from: (#[trigger] st.1[i]).0, to: st.0.next_id as usize, label: st.1[i].1, back_edge: false }) by {
            let e = EdgeView { from: st.1[i].0, to: st.0.next_id as usize, label: st.1[i].1, back_edge: false };
            if adv(st2.2, j, l.len()) {
                lemma_w_stmt(st.0, l, j, ind, st.1, lane, c, m);
                lemma_w_walk(st2.0, l, st2.2, ind, st2.1, lane, c, m);
                lemma_grows_keeps_edge(st2.0, w_walk(st2.0, l, st2.2, ind, st2.1, lane, c, m).0, e);
            }
        }
    }
}

/// A loop returns to its header: once its body has been walked past the
/// header, every exit of the body is joined to the loop node by a `next`
/// edge, which stays in the graph whatever an `else` clause adds.
pub proof fn lemma_py_loop_returns(g: GState, l: Seq<LineView>, idx: int, ind: usize, cur: Seq<ExitV>, lane: int, c: bool, m: usize)
    requires 0 <= idx < l.len(), 0 <= g.next_id,
    ensures ({
        let code = l[idx].code;
        let here = Some(l[idx].lineno);
        let header = if spec_starts_with_kw(code, "for"@) { spec_norm_loop(code) } else { spec_trim_end_char(code, ':') };
        let lid = g.next_id as usize;
        let g2 = g_connect(g_add(g, Shape::Loop, header, here, here, lane).0, cur, lid);
        let b = if idx + 1 < l.len() && l[idx + 1].indent > ind {
            w_walk(g2, l, idx + 1, l[idx + 1].indent, one_exit(lid, "enter"@), lane, c, m)
        } else {
            (g2, one_exit(lid, "enter"@), idx + 1)
        };
        let r = w_loop_stmt(g, l, idx, ind, cur, lane, c, m);
        adv(b.2, idx, l.len()) ==> forall|i: int| 0 <= i < b.1.len() ==>
            r.0.edges.contains(EdgeView { from: (#[trigger] b.1[i]).0, to: lid, label: Some("next"@), back_edge: false })
    }),
{
    let code = l[idx].code;
    let here = Some(l[idx].lineno);
    let header = if spec_starts_with_kw(code, "for"@) { spec_norm_loop(code) } else { spec_trim_end_char(code, ':') };
    let lid = g.next_id as usize;
    let g2 = g_connect(g_add(g, Shape::Loop, header, here, here, lane).0, cur, lid);
    let b = if idx + 1 < l.len() && l[idx + 1].indent > ind {
        w_walk(g2, l, idx + 1, l[idx + 1].indent, one_exit(lid, "enter"@), lane, c, m)
    } else {
        (g2, one_exit(lid, "enter"@), idx + 1)
    };
    if idx + 1 < l.len() && l[idx + 1].indent > ind {
        lemma_w_walk(g2, l, idx + 1, l[idx + 1].indent, one_exit(lid, "enter"@), lane, c, m);
    }
    let g4 = GState { edges: b.0.edges + next_edges(b.1, lid), ..b.0 };
    lemma_next_edges_each(b.0.edges, b.1, lid);
    let i2 = b.2;
    if adv(i2, idx, l.len()) && i2 < l.len() && l[i2].indent == ind && l[i2].code == "else:"@ {
        let i3 = i2 + 1;
        if i3 < l.len() && l[i3].indent > ind {
            let done = one_exit(lid, "done"@);
            lemma_w_walk(g4, l, i3, l[i3].indent, done, lane + 1, c, m);
            let r = w_walk(g4, l, i3, l[i3].indent, done, lane + 1, c, m);
            assert forall|i: int| 0 <= i < b.1.len() implies
                r.0.edges.contains(EdgeView { from: (#[trigger] b.1[i]).0, to: lid, label: Some("next"@), back_edge: false }) by {
                lemma_grows_keeps_edge(g4, r.0, EdgeView { from: b.1[i].0, to: lid, label: Some("next"@), back_edge: false });
            }
        }
    }
}

/// An `if` without a further `elif` flows on through all its ways out:
/// the exits gathered before it, the exits of its `yes` body, and those of
/// its `else` body, or its `no` exit when it has no `else`.
pub proof fn lemma_py_if_exits(g: GState, l: Seq<LineView>, idx: int, ind: usize, cur: Seq<ExitV>, lane: int, fo: Seq<ExitV>, c: bool, m: usize)
    requires
        0 <= idx < l.len(), l[idx].indent == ind,
        spec_starts_with_kw(l[idx].code, "if"@) || spec_starts_with_kw(l[idx].code, "elif"@),
    ensures ({
        let li = l[idx];
        let did = g.next_id as usize;
        let g2 = g_connect(g_add(g, Shape::Decision, "if "@ + spec_cond_text(li.code), Some(li.lineno), Some(li.lineno), lane).0, cur, did);
        let b = if idx + 1 < l.len() && l[idx + 1].indent > ind {
            w_walk(g2, l, idx + 1, l[idx + 1].indent, one_exit(did, "yes"@), lane - 1, c, m)
        } else {
            (g2, one_exit(did, "yes"@), idx + 1)
        };
        let i1 = b.2;
        let no = one_exit(did, "no"@);
        let has_else = i1 < l.len() && l[i1].indent == ind && l[i1].code == "else:"@;
        let has_elif = i1 < l.len() && l[i1].indent == ind && spec_starts_with_kw(l[i1].code, "elif"@) && !has_else;
        let e = if i1 + 1 < l.len() && l[i1 + 1].indent > ind {
            w_walk(b.0, l, i1 + 1, l[i1 + 1].indent, no, lane + 1, c, m)
        } else {
            (b.0, no, i1 + 1)
        };
        let r = w_if(g, l, idx, ind, cur, lane, fo, c, m);
        adv(i1, idx, l.len()) && !has_elif ==> {
            &&& exits_among(fo, r.1) && exits_among(b.1, r.1)
            &&& (has_else ==> exits_among(e.1, r.1))
            &&& (!has_else ==> r.1.contains((did, Some("no"@))))
        }
    }),
{
    let li = l[idx];
    let did = g.next_id as usize;
    let g2 = g_connect(g_add(g, Shape::Decision, "if "@ + spec_cond_text(li.code), Some(li.lineno), Some(li.lineno), lane).0, cur, did);
    let b = if idx + 1 < l.len() && l[idx + 1].indent > ind {
        w_walk(g2, l, idx + 1, l[idx + 1].indent, one_exit(did, "yes"@), lane - 1, c, m)
    } else {
        (g2, one_exit(did, "yes"@), idx + 1)
    };
    let i1 = b.2;
    let no = one_exit(did, "no"@);
    let fo2 = fo + b.1;
    lemma_among_concat(fo, b.1);
    let has_else = i1 < l.len() && l[i1].indent == ind && l[i1].code == "else:"@;
    let e = if i1 + 1 < l.len() && l[i1 + 1].indent > ind {
        w_walk(b.0, l, i1 + 1, l[i1 + 1].indent, no, lane + 1, c, m)
    } else {
        (b.0, no, i1 + 1)
    };
    let tail = if has_else { e.1 } else { no };
    lemma_among_concat(fo2, tail);
    lemma_among_trans(fo, fo2, fo2 + tail);
    lemma_among_trans(b.1, fo2, fo2 + tail);
    if !has_else {
        assert((fo2 + tail)[fo2.len() as int] == (did, Some("no"@)));
    }
}

pub proof fn lemma_w_walk(g: GState, l: Seq<LineView>, idx: int, ind: usize, cur: Seq<ExitV>, lane: int, c: bool, m: usize)
    requires 0 <= g.next_id,
    ensures grows(g, w_walk(g, l, idx, ind, cur, lane, c, m).0), cur.len() > 0 ==> w_walk(g, l, idx, ind, cur, lane, c, m).1.len() > 0,
    decreases l.len() - idx, 3int,
{
    if idx < 0 || idx >= l.len() || l[idx].indent < ind {
        lemma_grows_refl(g);
    } else if l[idx].indent > ind {
        lemma_w_walk(g, l, idx + 1, ind, cur, lane, c, m);
    } else {
        lemma_w_stmt(g, l, idx, ind, cur, lane, c, m);
        let st = w_stmt(g, l, idx, ind, cur, lane, c, m);
        if adv(st.2, idx, l.len()) {
            lemma_w_walk(st.0, l, st.2, ind, st.1, lane, c, m);
            lemma_grows_trans(g, st.0, w_walk(st.0, l, st.2, ind, st.1, lane, c, m).0);
        }
    }
}

pub proof fn lemma_w_stmt(g: GState, l: Seq<LineView>, idx: int, ind: usize, cur: Seq<ExitV>, lane: int, c: bool, m: usize)
    requires 0 <= g.next_id,
    ensures grows(g, w_stmt(g, l, idx, ind, cur, lane, c, m).0), cur.len() > 0 ==> w_stmt(g, l, idx, ind, cur, lane, c, m).1.len() > 0,
    decreases l.len() - idx, 2int,
{
    if idx < 0 || idx >= l.len() {
        lemma_grows_refl(g);
    } else {
        let code = l[idx].code;
        if spec_starts_with_kw(code, "if"@) {
            lemma_w_if(g, l, idx, ind, cur, lane, Seq::empty(), c, m);
        } else if spec_starts_with_kw(code, "for"@) || spec_starts_with_kw(code, "while"@) {
            lemma_w_loop_stmt(g, l, idx, ind, cur, lane, c, m);
        } else if spec_starts_with_kw(code, "try"@) {
            lemma_w_try_stmt(g, l, idx, ind, cur, lane, c, m);
        } else if spec_starts_with_kw(code, "def"@) {
            lemma_w_def_stmt(g, l, idx, ind, cur, lane, c, m);
        } else if spec_starts_with_kw(code, "with"@) {
            lemma_w_with_stmt(g, l, idx, ind, cur, lane, c, m);
        } else if c && spec_is_groupable(code) {
            let j = group_end(l, idx + 1, ind, m, idx);
            if idx < 0 || !adv(j, idx, l.len()) {
                lemma_grows_refl(g);
            } else {
                let codes = l.subrange(idx, j).map_values(|x: LineView| x.code);
                lemma_g_add(g, Shape::Process, spec_summarize(codes), Some(l[idx].lineno), Some(l[j - 1].line_end), lane, cur);
            }
        } else {
            let here = Some(l[idx].lineno);
            lemma_g_add(g, Shape::Process, spec_stmt_text(code), here, here, lane, cur);
        }
    }
}

pub proof fn lemma_w_loop_stmt(g: GState, l: Seq<LineView>, idx: int, ind: usize, cur: Seq<ExitV>, lane: int, c: bool, m: usize)
    requires 0 <= g.next_id,
    ensures grows(g, w_loop_stmt(g, l, idx, ind, cur, lane, c, m).0), cur.len() > 0 ==> w_loop_stmt(g, l, idx, ind, cur, lane, c, m).1.len() > 0,
    decreases l.len() - idx, 1int,
{
    if idx < 0 || idx >= l.len() {
        lemma_grows_refl(g);
    } else {
        let code = l[idx].code;
        let here = Some(l[idx].lineno);
        let header = if spec_starts_with_kw(code, "for"@) { spec_norm_loop(code) } else { spec_trim_end_char(code, ':') };
        lemma_g_add(g, Shape::Loop, header, here, here, lane, cur);
        let (g1, lid) = g_add(g, Shape::Loop, header, here, here, lane);
        let g2 = g_connect(g1, cur, lid);
        let i1 = idx + 1;
        let enter = one_exit(lid, "enter"@);
        let b = if i1 < l.len() && l[i1].indent > ind { w_walk(g2, l, i1, l[i1].indent, enter, lane, c, m) } else { (g2, enter, i1) };
        if i1 < l.len() && l[i1].indent > ind {
            lemma_w_walk(g2, l, i1, l[i1].indent, enter, lane, c, m);
            lemma_grows_trans(g, g2, b.0);
        }
        let g4 = GState { edges: b.0.edges + next_edges(b.1, lid), ..b.0 };
        let i2 = b.2;
        let done = one_exit(lid, "done"@);
        if adv(i2, idx, l.len()) {
            if g.next_id <= usize::MAX {
                lemma_next_edges_grows(g, b.0, b.1, lid);
            } else {
                assert(grows(g, g4)) by {
                    assert(g4.nodes == b.0.nodes);
                    assert(g4.edges.take(g.edges.len() as int) =~= g.edges) by {
                        assert forall|q: int| 0 <= q < g.edges.len() implies g4.edges[q] == g.edges[q] by {
                            assert(b.0.edges.take(g.edges.len() as int)[q] == g.edges[q]);
                        }
                    }
                }
            }
            if i2 < l.len() && l[i2].indent == ind && l[i2].code == "else:"@ {
                let i3 = i2 + 1;
                if i3 < l.len() && l[i3].indent > ind {
                    lemma_w_walk(g4, l, i3, l[i3].indent, done, lane + 1, c, m);
                    lemma_grows_trans(g, g4, w_walk(g4, l, i3, l[i3].indent, done, lane + 1, c, m).0);
                }
            }
        }
    }
}

pub proof fn lemma_w_try_stmt(g: GState, l: Seq<LineView>, idx: int, ind: usize, cur: Seq<ExitV>, lane: int, c: bool, m: usize)
    requires 0 <= g.next_id,
    ensures grows(g, w_try_stmt(g, l, idx, ind, cur, lane, c, m).0), cur.len() > 0 ==> w_try_stmt(g, l, idx, ind, cur, lane, c, m).1.len() > 0,
    decreases l.len() - idx, 1int,
{
    if idx < 0 || idx >= l.len() {
        lemma_grows_refl(g);
    } else {
        let here = Some(l[idx].lineno);
        lemma_g_add(g, Shape::Decision, "try/except"@, here, here, lane, cur);
        let (g1, did) = g_add(g, Shape::Decision, "try/except"@, here, here, lane);
        let g2 = g_connect(g1, cur, did);
        let i1 = idx + 1;
        let tr = one_exit(did, "try"@);
        let b = if i1 < l.len() && l[i1].indent > ind { w_walk(g2, l, i1, l[i1].indent, tr, lane, c, m) } else { (g2, tr, i1) };
        if i1 < l.len() && l[i1].indent > ind {
            lemma_w_walk(g2, l, i1, l[i1].indent, tr, lane, c, m);
            lemma_grows_trans(g, g2, b.0);
        }
        if adv(b.2, idx, l.len()) {
            lemma_w_try(b.0, l, b.2, ind, did, b.1, lane, c, m);
            lemma_grows_trans(g, b.0, w_try(b.0, l, b.2, ind, did, b.1, lane, c, m).0);
        }
    }
}

pub proof fn lemma_w_def_stmt(g: GState, l: Seq<LineView>, idx: int, ind: usize, cur: Seq<ExitV>, lane: int, c: bool, m: usize)
    requires 0 <= g.next_id,
    ensures grows(g, w_def_stmt(g, l, idx, ind, cur, lane, c, m).0), cur.len() > 0 ==> w_def_stmt(g, l, idx, ind, cur, lane, c, m).1.len() > 0,
    decreases l.len() - idx, 1int,
{
    if idx < 0 || idx >= l.len() {
        lemma_grows_refl(g);
    } else {
        let here = Some(l[idx].lineno);
        lemma_g_add(g, Shape::Process, spec_stmt_text(l[idx].code), here, here, lane, cur);
        let (g1, fid) = g_add(g, Shape::Process, spec_stmt_text(l[idx].code), here, here, lane);
        let g2 = g_connect(g1, cur, fid);
        let i1 = idx + 1;
        if i1 < l.len() && l[i1].indent > ind {
            lemma_w_walk(g2, l, i1, l[i1].indent, one_exit(fid, "enter"@), lane + 1, c, m);
            lemma_grows_trans(g, g2, w_walk(g2, l, i1, l[i1].indent, one_exit(fid, "enter"@), lane + 1, c, m).0);
        }
    }
}

pub proof fn lemma_w_with_stmt(g: GState, l: Seq<LineView>, idx: int, ind: usize, cur: Seq<ExitV>, lane: int, c: bool, m: usize)
    requires 0 <= g.next_id,
    ensures grows(g, w_with_stmt(g, l, idx, ind, cur, lane, c, m).0), cur.len() > 0 ==> w_with_stmt(g, l, idx, ind, cur, lane, c, m).1.len() > 0,
    decreases l.len() - idx, 1int,
{
    if idx < 0 || idx >= l.len() {
        lemma_grows_refl(g);
    } else {
        let here = Some(l[idx].lineno);
        lemma_g_add(g, Shape::Process, "with ..."@, here, here, lane, cur);
        let (g1, wid) = g_add(g, Shape::Process, "with ..."@, here, here, lane);
        let g2 = g_connect(g1, cur, wid);
        let i1 = idx + 1;
        if i1 < l.len() && l[i1].indent > ind {
            lemma_w_walk(g2, l, i1, l[i1].indent, bare_exit(wid), lane, c, m);
            lemma_grows_trans(g, g2, w_walk(g2, l, i1, l[i1].indent, bare_exit(wid), lane, c, m).0);
        }
    }
}

pub proof fn lemma_w_if(g: GState, l: Seq<LineView>, idx: int, ind: usize, cur: Seq<ExitV>, lane: int, fo: Seq<ExitV>, c: bool, m: usize)
    requires 0 <= g.next_id,
    ensures grows(g, w_if(g, l, idx, ind, cur, lane, fo, c, m).0), cur.len() > 0 ==> w_if(g, l, idx, ind, cur, lane, fo, c, m).1.len() > 0,
    decreases l.len() - idx, 1int,
{
    if idx < 0 || idx >= l.len() || l[idx].indent != ind
        || !(spec_starts_with_kw(l[idx].code, "if"@) || spec_starts_with_kw(l[idx].code, "elif"@)) {
        lemma_grows_refl(g);
    } else {
        let li = l[idx];
        let here = Some(li.lineno);
        let t = "if "@ + spec_cond_text(li.code);
        lemma_g_add(g, Shape::Decision, t, here, here, lane, cur);
        let (g1, did) = g_add(g, Shape::Decision, t, here, here, lane);
        let g2 = g_connect(g1, cur, did);
        let yes = one_exit(did, "yes"@);
        let b = if idx + 1 < l.len() && l[idx + 1].indent > ind {
            w_walk(g2, l, idx + 1, l[idx + 1].indent, yes, lane - 1, c, m)
        } else {
            (g2, yes, idx + 1)
        };
        if idx + 1 < l.len() && l[idx + 1].indent > ind {
            lemma_w_walk(g2, l, idx + 1, l[idx + 1].indent, yes, lane - 1, c, m);
            lemma_grows_trans(g, g2, b.0);
        }
        let i1 = b.2;
        let fo2 = fo + b.1;
        let no = one_exit(did, "no"@);
        if !adv(i1, idx, l.len()) {
        } else if i1 >= l.len() || l[i1].indent != ind || (!spec_starts_with_kw(l[i1].code, "elif"@) && l[i1].code != "else:"@) {
        } else if l[i1].code == "else:"@ {
            if i1 + 1 < l.len() && l[i1 + 1].indent > ind {
                lemma_w_walk(b.0, l, i1 + 1, l[i1 + 1].indent, no, lane + 1, c, m);
                lemma_grows_trans(g, b.0, w_walk(b.0, l, i1 + 1, l[i1 + 1].indent, no, lane + 1, c, m).0);
            }
        } else {
            lemma_w_if(b.0, l, i1, ind, no, lane + 1, fo2, c, m);
            lemma_grows_trans(g, b.0, w_if(b.0, l, i1, ind, no, lane + 1, fo2, c, m).0);
        }
    }
}

pub proof fn lemma_w_try(g: GState, l: Seq<LineView>, idx: int, ind: usize, did: usize, out: Seq<ExitV>, lane: int, c: bool, m: usize)
    requires 0 <= g.next_id,
    ensures grows(g, w_try(g, l, idx, ind, did, out, lane, c, m).0),
    decreases l.len() - idx, 1int,
{
    if idx < 0 || idx >= l.len() || l[idx].indent != ind {
        lemma_grows_refl(g);
    } else {
        let cc = spec_trim_end_char(l[idx].code, ':');
        let i1 = idx + 1;
        let nested = i1 < l.len() && l[i1].indent > ind;
        if spec_starts_with_kw(cc, "except"@) {
            if nested {
                let b = w_walk(g, l, i1, l[i1].indent, one_exit(did, cc), lane + 1, c, m);
                lemma_w_walk(g, l, i1, l[i1].indent, one_exit(did, cc), lane + 1, c, m);
                if adv(b.2, idx, l.len()) {
                    lemma_w_try(b.0, l, b.2, ind, did, out + b.1, lane, c, m);
                    lemma_grows_trans(g, b.0, w_try(b.0, l, b.2, ind, did, out + b.1, lane, c, m).0);
                }
            } else {
                lemma_w_try(g, l, i1, ind, did, out + one_exit(did, cc), lane, c, m);
            }
        } else if cc == "else"@ {
            if nested {
                let b = w_walk(g, l, i1, l[i1].indent, one_exit(did, "else"@), lane, c, m);
                lemma_w_walk(g, l, i1, l[i1].indent, one_exit(did, "else"@), lane, c, m);
                if adv(b.2, idx, l.len()) {
                    lemma_w_try(b.0, l, b.2, ind, did, out + b.1, lane, c, m);
                    lemma_grows_trans(g, b.0, w_try(b.0, l, b.2, ind, did, out + b.1, lane, c, m).0);
                }
            } else {
                lemma_w_try(g, l, i1, ind, did, out, lane, c, m);
            }
        } else if cc == "finally"@ {
            if nested {
                let b = w_walk(g, l, i1, l[i1].indent, out, lane, c, m);
                lemma_w_walk(g, l, i1, l[i1].indent, out, lane, c, m);
                if adv(b.2, idx, l.len()) {
                    lemma_w_try(b.0, l, b.2, ind, did, b.1, lane, c, m);
                    lemma_grows_trans(g, b.0, w_try(b.0, l, b.2, ind, did, b.1, lane, c, m).0);
                }
            } else {
                lemma_w_try(g, l, i1, ind, did, out, lane, c, m);
            }
        } else {
            lemma_grows_refl(g);
        }
    }
}

proof fn lemma_node_rep(g: GState, shape: Shape, text: Seq<char>, ls: Option<usize>, le: Option<usize>, lane: int, cur: Seq<ExitV>)
    requires 0 <= g.next_id,
    ensures ({
        let (g1, id) = g_add(g, shape, text, ls, le, lane);
        let g2 = g_connect(g1, cur, id);
        g2.next_id <= usize::MAX + 1 ==> walk_src(g, g2, cur) && in_or_new(g, g2, cur, id) && walk_ex(g, g2, cur, cur)
    }),
{
    let (g1, id) = g_add(g, shape, text, ls, le, lane);
    let g2 = g_connect(g1, cur, id);
    lemma_ex_refl(g, g1, cur);
    lemma_ex_refl(g, g2, cur);
    lemma_connect_src(g, g1, cur, id);
    assert forall|j: int| g.edges.len() <= j < g2.edges.len() implies in_or_new(g, g2, cur, (#[trigger] g2.edges[j]).from) by {
        assert(in_or_new(g, g1, cur, g2.edges[j].from));
    }
}

/// The walk's representation: `walk_rep` for a statement.
pub proof fn lemma_r_stmt(g: GState, l: Seq<LineView>, idx: int, ind: usize, cur: Seq<ExitV>, lane: int, c: bool, m: usize)
    requires 0 <= g.next_id,
    ensures walk_rep(g, w_stmt(g, l, idx, ind, cur, lane, c, m).0, cur, w_stmt(g, l, idx, ind, cur, lane, c, m).1),
    decreases l.len() - idx, 2int,
{
    if idx < 0 || idx >= l.len() {
        lemma_ex_refl(g, g, cur);
    } else {
        let code = l[idx].code;
        if spec_starts_with_kw(code, "if"@) {
            lemma_r_if(g, l, idx, ind, cur, lane, Seq::empty(), c, m);
            assert(cur + Seq::<ExitV>::empty() =~= cur);
        } else if spec_starts_with_kw(code, "for"@) || spec_starts_with_kw(code, "while"@) {
            lemma_r_loop(g, l, idx, ind, cur, lane, c, m);
        } else if spec_starts_with_kw(code, "try"@) {
            lemma_r_try_stmt(g, l, idx, ind, cur, lane, c, m);
        } else if spec_starts_with_kw(code, "def"@) {
            lemma_r_def(g, l, idx, ind, cur, lane, c, m);
        } else if spec_starts_with_kw(code, "with"@) {
            lemma_r_with(g, l, idx, ind, cur, lane, c, m);
        } else if c && spec_is_groupable(code) {
            let j = group_end(l, idx + 1, ind, m, idx);
            if idx < 0 || !adv(j, idx, l.len()) {
                lemma_ex_refl(g, g, cur);
            } else {
                let codes = l.subrange(idx, j).map_values(|x: LineView| x.code);
                let t = spec_summarize(codes);
                lemma_node_rep(g, Shape::Process, t, Some(l[idx].lineno), Some(l[j - 1].line_end), lane, cur);
                let (g1, pid) = g_add(g, Shape::Process, t, Some(l[idx].lineno), Some(l[j - 1].line_end), lane);
                if g_connect(g1, cur, pid).next_id <= usize::MAX + 1 {
                    lemma_ex_single(g, g_connect(g1, cur, pid), cur, (pid, None));
                }
            }
        } else {
            let here = Some(l[idx].lineno);
            let t = spec_stmt_text(code);
            lemma_node_rep(g, Shape::Process, t, here, here, lane, cur);
            let (g1, pid) = g_add(g, Shape::Process, t, here, here, lane);
            if g_connect(g1, cur, pid).next_id <= usize::MAX + 1 {
                lemma_ex_single(g, g_connect(g1, cur, pid), cur, (pid, None));
            }
        }
    }
}

/// The walk's representation: new edges leave only the exits that flowed
/// in or new nodes, and the block's exits are among them.
pub proof fn lemma_r_walk(g: GState, l: Seq<LineView>, idx: int, ind: usize, cur: Seq<ExitV>, lane: int, c: bool, m: usize)
    requires 0 <= g.next_id,
    ensures walk_rep(g, w_walk(g, l, idx, ind, cur, lane, c, m).0, cur, w_walk(g, l, idx, ind, cur, lane, c, m).1),
    decreases l.len() - idx, 3int,
{
    if idx < 0 || idx >= l.len() || l[idx].indent < ind {
        lemma_ex_refl(g, g, cur);
    } else if l[idx].indent > ind {
        lemma_r_walk(g, l, idx + 1, ind, cur, lane, c, m);
    } else {
        lemma_r_stmt(g, l, idx, ind, cur, lane, c, m);
        lemma_w_stmt(g, l, idx, ind, cur, lane, c, m);
        let st = w_stmt(g, l, idx, ind, cur, lane, c, m);
        if adv(st.2, idx, l.len()) {
            lemma_r_walk(st.0, l, st.2, ind, st.1, lane, c, m);
            lemma_w_walk(st.0, l, st.2, ind, st.1, lane, c, m);
            lemma_rep_seq(g, st.0, w_walk(st.0, l, st.2, ind, st.1, lane, c, m).0, cur, st.1, w_walk(st.0, l, st.2, ind, st.1, lane, c, m).1);
        }
    }
}

pub proof fn lemma_r_loop(g: GState, l: Seq<LineView>, idx: int, ind: usize, cur: Seq<ExitV>, lane: int, c: bool, m: usize)
    requires 0 <= g.next_id,
    ensures walk_rep(g, w_loop_stmt(g, l, idx, ind, cur, lane, c, m).0, cur, w_loop_stmt(g, l, idx, ind, cur, lane, c, m).1),
    decreases l.len() - idx, 1int,
{
    if idx < 0 || idx >= l.len() {
        lemma_ex_refl(g, g, cur);
    } else {
        let code = l[idx].code;
        let here = Some(l[idx].lineno);
        let header = if spec_starts_with_kw(code, "for"@) { spec_norm_loop(code) } else { spec_trim_end_char(code, ':') };
        lemma_g_add(g, Shape::Loop, header, here, here, lane, cur);
        lemma_node_rep(g, Shape::Loop, header, here, here, lane, cur);
        let (g1, lid) = g_add(g, Shape::Loop, header, here, here, lane);
        let g2 = g_connect(g1, cur, lid);
        let i1 = idx + 1;
        let enter = one_exit(lid, "enter"@);
        let done = one_exit(lid, "done"@);
        if g2.next_id <= usize::MAX + 1 {
            lemma_ex_single(g, g2, cur, (lid, Some("enter"@)));
            lemma_ex_single(g, g2, cur, (lid, Some("done"@)));
        }
        let nested = i1 < l.len() && l[i1].indent > ind;
        let b = if nested { w_walk(g2, l, i1, l[i1].indent, enter, lane, c, m) } else { (g2, enter, i1) };
        if nested {
            lemma_r_walk(g2, l, i1, l[i1].indent, enter, lane, c, m);
            lemma_w_walk(g2, l, i1, l[i1].indent, enter, lane, c, m);
            lemma_rep_seq(g, g2, b.0, cur, enter, b.1);
            lemma_grows_trans(g, g2, b.0);
        }
        assert(walk_rep(g, b.0, cur, b.1));
        assert(g2.next_id <= b.0.next_id);
        let g4 = GState { edges: b.0.edges + next_edges(b.1, lid), ..b.0 };
        let i2 = b.2;
        if adv(i2, idx, l.len()) {
            if g4.next_id <= usize::MAX + 1 {
                lemma_next_src(g, b.0, cur, b.1, lid);
                lemma_ex_lift(g, g2, g4, cur, done);
                lemma_next_edges_grows(g, b.0, b.1, lid);
            }
            if i2 < l.len() && l[i2].indent == ind && l[i2].code == "else:"@ {
                let i3 = i2 + 1;
                if i3 < l.len() && l[i3].indent > ind {
                    let r = w_walk(g4, l, i3, l[i3].indent, done, lane + 1, c, m);
                    lemma_r_walk(g4, l, i3, l[i3].indent, done, lane + 1, c, m);
                    lemma_w_walk(g4, l, i3, l[i3].indent, done, lane + 1, c, m);
                    if g4.next_id <= usize::MAX + 1 {
                        lemma_rep_seq(g, g4, r.0, cur, done, r.1);
                    }
                }
            }
        }
    }
}

pub proof fn lemma_r_try_stmt(g: GState, l: Seq<LineView>, idx: int, ind: usize, cur: Seq<ExitV>, lane: int, c: bool, m: usize)
    requires 0 <= g.next_id,
    ensures walk_rep(g, w_try_stmt(g, l, idx, ind, cur, lane, c, m).0, cur, w_try_stmt(g, l, idx, ind, cur, lane, c, m).1),
    decreases l.len() - idx, 1int,
{
    if idx < 0 || idx >= l.len() {
        lemma_ex_refl(g, g, cur);
    } else {
        let here = Some(l[idx].lineno);
        lemma_g_add(g, Shape::Decision, "try/except"@, here, here, lane, cur);
        lemma_node_rep(g, Shape::Decision, "try/except"@, here, here, lane, cur);
        let (g1, did) = g_add(g, Shape::Decision, "try/except"@, here, here, lane);
        let g2 = g_connect(g1, cur, did);
        let i1 = idx + 1;
        let tr = one_exit(did, "try"@);
        if g2.next_id <= usize::MAX + 1 {
            lemma_ex_single(g, g2, cur, (did, Some("try"@)));
            lemma_ex_single(g, g2, cur, (did, None));
        }
        let nested = i1 < l.len() && l[i1].indent > ind;
        let b = if nested { w_walk(g2, l, i1, l[i1].indent, tr, lane, c, m) } else { (g2, tr, i1) };
        if nested {
            lemma_r_walk(g2, l, i1, l[i1].indent, tr, lane, c, m);
            lemma_w_walk(g2, l, i1, l[i1].indent, tr, lane, c, m);
            lemma_rep_seq(g, g2, b.0, cur, tr, b.1);
            lemma_grows_trans(g, g2, b.0);
        }
        assert(walk_rep(g, b.0, cur, b.1));
        if adv(b.2, idx, l.len()) {
            let t = w_try(b.0, l, b.2, ind, did, b.1, lane, c, m);
            let s2 = b.1 + seq![(did, None::<Seq<char>>)];
            lemma_r_try(b.0, l, b.2, ind, did, b.1, lane, c, m);
            lemma_w_try(b.0, l, b.2, ind, did, b.1, lane, c, m);
            if b.0.next_id <= usize::MAX + 1 {
                lemma_ex_lift(g, g2, b.0, cur, seq![(did, None::<Seq<char>>)]);
                lemma_ex_concat(g, b.0, cur, b.1, seq![(did, None::<Seq<char>>)]);
            }
            lemma_rep_seq(g, b.0, t.0, cur, s2, t.1);
            if t.1.len() == 0 && t.0.next_id <= usize::MAX + 1 {
                lemma_ex_lift(g, g2, t.0, cur, bare_exit(did));
            }
        }
    }
}

pub proof fn lemma_r_def(g: GState, l: Seq<LineView>, idx: int, ind: usize, cur: Seq<ExitV>, lane: int, c: bool, m: usize)
    requires 0 <= g.next_id,
    ensures walk_rep(g, w_def_stmt(g, l, idx, ind, cur, lane, c, m).0, cur, w_def_stmt(g, l, idx, ind, cur, lane, c, m).1),
    decreases l.len() - idx, 1int,
{
    if idx < 0 || idx >= l.len() {
        lemma_ex_refl(g, g, cur);
    } else {
        let here = Some(l[idx].lineno);
        let t = spec_stmt_text(l[idx].code);
        lemma_g_add(g, Shape::Process, t, here, here, lane, cur);
        lemma_node_rep(g, Shape::Process, t, here, here, lane, cur);
        let (g1, fid) = g_add(g, Shape::Process, t, here, here, lane);
        let g2 = g_connect(g1, cur, fid);
        if g2.next_id <= usize::MAX + 1 {
            lemma_ex_single(g, g2, cur, (fid, Some("enter"@)));
            lemma_ex_single(g, g2, cur, (fid, None));
        }
        let i1 = idx + 1;
        if i1 < l.len() && l[i1].indent > ind {
            let e = one_exit(fid, "enter"@);
            lemma_r_walk(g2, l, i1, l[i1].indent, e, lane + 1, c, m);
            lemma_w_walk(g2, l, i1, l[i1].indent, e, lane + 1, c, m);
            let r = w_walk(g2, l, i1, l[i1].indent, e, lane + 1, c, m);
            lemma_rep_seq(g, g2, r.0, cur, e, r.1);
        }
    }
}

pub proof fn lemma_r_with(g: GState, l: Seq<LineView>, idx: int, ind: usize, cur: Seq<ExitV>, lane: int, c: bool, m: usize)
    requires 0 <= g.next_id,
    ensures walk_rep(g, w_with_stmt(g, l, idx, ind, cur, lane, c, m).0, cur, w_with_stmt(g, l, idx, ind, cur, lane, c, m).1),
    decreases l.len() - idx, 1int,
{
    if idx < 0 || idx >= l.len() {
        lemma_ex_refl(g, g, cur);
    } else {
        let here = Some(l[idx].lineno);
        lemma_g_add(g, Shape::Process, "with ..."@, here, here, lane, cur);
        lemma_node_rep(g, Shape::Process, "with ..."@, here, here, lane, cur);
        let (g1, wid) = g_add(g, Shape::Process, "with ..."@, here, here, lane);
        let g2 = g_connect(g1, cur, wid);
        if g2.next_id <= usize::MAX + 1 {
            lemma_ex_single(g, g2, cur, (wid, None));
        }
        let i1 = idx + 1;
        if i1 < l.len() && l[i1].indent > ind {
            let e = bare_exit(wid);
            lemma_r_walk(g2, l, i1, l[i1].indent, e, lane, c, m);
            lemma_w_walk(g2, l, i1, l[i1].indent, e, lane, c, m);
            let r = w_walk(g2, l, i1, l[i1].indent, e, lane, c, m);
            lemma_rep_seq(g, g2, r.0, cur, e, r.1);
        }
    }
}

pub proof fn lemma_r_if(g: GState, l: Seq<LineView>, idx: int, ind: usize, cur: Seq<ExitV>, lane: int, fo: Seq<ExitV>, c: bool, m: usize)
    requires 0 <= g.next_id,
    ensures walk_rep(g, w_if(g, l, idx, ind, cur, lane, fo, c, m).0, cur + fo, w_if(g, l, idx, ind, cur, lane, fo, c, m).1),
    decreases l.len() - idx, 1int,
{
    let s = cur + fo;
    lemma_ids_sub_left(cur, fo);
    lemma_ids_sub_right(cur, fo);
    if idx < 0 || idx >= l.len() || l[idx].indent != ind
        || !(spec_starts_with_kw(l[idx].code, "if"@) || spec_starts_with_kw(l[idx].code, "elif"@)) {
        lemma_ids_sub_cat(fo, cur, s);
        lemma_ex_of_sub(g, g, s, fo + cur);
    } else {
        let li = l[idx];
        let here = Some(li.lineno);
        let t = "if "@ + spec_cond_text(li.code);
        lemma_g_add(g, Shape::Decision, t, here, here, lane, cur);
        lemma_node_rep(g, Shape::Decision, t, here, here, lane, cur);
        let (g1, did) = g_add(g, Shape::Decision, t, here, here, lane);
        let g2 = g_connect(g1, cur, did);
        let yes = one_exit(did, "yes"@);
        let no = one_exit(did, "no"@);
        assert(walk_rep(g, g2, cur, cur));
        lemma_rep_widen(g, g2, cur, s, cur);
        if g2.next_id <= usize::MAX + 1 {
            lemma_ex_single(g, g2, s, (did, Some("yes"@)));
            lemma_ex_single(g, g2, s, (did, Some("no"@)));
        }
        let nested = idx + 1 < l.len() && l[idx + 1].indent > ind;
        let b = if nested { w_walk(g2, l, idx + 1, l[idx + 1].indent, yes, lane - 1, c, m) } else { (g2, yes, idx + 1) };
        if nested {
            lemma_r_walk(g2, l, idx + 1, l[idx + 1].indent, yes, lane - 1, c, m);
            lemma_w_walk(g2, l, idx + 1, l[idx + 1].indent, yes, lane - 1, c, m);
            lemma_rep_seq(g, g2, b.0, s, yes, b.1);
            lemma_grows_trans(g, g2, b.0);
        }
        assert(walk_rep(g, b.0, s, b.1));
        let i1 = b.2;
        let fo2 = fo + b.1;
        if b.0.next_id <= usize::MAX + 1 {
            lemma_ex_lift(g, g2, b.0, s, no);
            lemma_ex_of_sub(g, b.0, s, fo);
            lemma_ex_concat(g, b.0, s, fo, b.1);
            lemma_ex_concat(g, b.0, s, fo2, no);
            lemma_ex_concat(g, b.0, s, no, fo2);
        }
        if !adv(i1, idx, l.len()) {
        } else if i1 >= l.len() || l[i1].indent != ind || (!spec_starts_with_kw(l[i1].code, "elif"@) && l[i1].code != "else:"@) {
        } else if l[i1].code == "else:"@ {
            let en = i1 + 1 < l.len() && l[i1 + 1].indent > ind;
            let e = if en { w_walk(b.0, l, i1 + 1, l[i1 + 1].indent, no, lane + 1, c, m) } else { (b.0, no, i1 + 1) };
            if en {
                lemma_r_walk(b.0, l, i1 + 1, l[i1 + 1].indent, no, lane + 1, c, m);
                lemma_w_walk(b.0, l, i1 + 1, l[i1 + 1].indent, no, lane + 1, c, m);
                lemma_rep_seq(g, b.0, e.0, s, no, e.1);
            }
            assert(walk_rep(g, e.0, s, e.1));
            if e.0.next_id <= usize::MAX + 1 {
                lemma_ex_lift(g, b.0, e.0, s, fo2);
                lemma_ex_concat(g, e.0, s, fo2, e.1);
            }
        } else {
            lemma_r_if(b.0, l, i1, ind, no, lane + 1, fo2, c, m);
            lemma_w_if(b.0, l, i1, ind, no, lane + 1, fo2, c, m);
            let r = w_if(b.0, l, i1, ind, no, lane + 1, fo2, c, m);
            lemma_rep_seq(g, b.0, r.0, s, no + fo2, r.1);
        }
    }
}

pub proof fn lemma_r_try(g: GState, l: Seq<LineView>, idx: int, ind: usize, did: usize, out: Seq<ExitV>, lane: int, c: bool, m: usize)
    requires 0 <= g.next_id,
    ensures ({
        let r = w_try(g, l, idx, ind, did, out, lane, c, m);
        walk_rep(g, r.0, out + seq![(did, None::<Seq<char>>)], r.1)
    }),
    decreases l.len() - idx, 1int,
{
    let d = seq![(did, None::<Seq<char>>)];
    let s = out + d;
    lemma_ids_sub_left(out, d);
    lemma_ids_sub_right(out, d);
    assert(ids_in(s, did)) by { assert(s[out.len() as int] == (did, None::<Seq<char>>)); }
    if idx < 0 || idx >= l.len() || l[idx].indent != ind {
        lemma_ex_of_sub(g, g, s, out);
    } else {
        let cc = spec_trim_end_char(l[idx].code, ':');
        let i1 = idx + 1;
        let nested = i1 < l.len() && l[i1].indent > ind;
        if spec_starts_with_kw(cc, "except"@) || cc == "else"@ {
            let lbl = if spec_starts_with_kw(cc, "except"@) { cc } else { "else"@ };
            let e1 = one_exit(did, lbl);
            lemma_ids_sub_single((did, Some(lbl)), s);
            if nested {
                let ln = if spec_starts_with_kw(cc, "except"@) { lane + 1 } else { lane };
                let b = w_walk(g, l, i1, l[i1].indent, e1, ln, c, m);
                lemma_r_walk(g, l, i1, l[i1].indent, e1, ln, c, m);
                lemma_w_walk(g, l, i1, l[i1].indent, e1, ln, c, m);
                lemma_rep_widen(g, b.0, e1, s, b.1);
                if adv(b.2, idx, l.len()) {
                    let s2 = (out + b.1) + d;
                    lemma_r_try(b.0, l, b.2, ind, did, out + b.1, lane, c, m);
                    lemma_w_try(b.0, l, b.2, ind, did, out + b.1, lane, c, m);
                    if b.0.next_id <= usize::MAX + 1 {
                        lemma_ex_of_sub(g, b.0, s, out);
                        lemma_ex_of_sub(g, b.0, s, d);
                        lemma_ex_concat(g, b.0, s, out, b.1);
                        lemma_ex_concat(g, b.0, s, out + b.1, d);
                    }
                    let t = w_try(b.0, l, b.2, ind, did, out + b.1, lane, c, m);
                    lemma_rep_seq(g, b.0, t.0, s, s2, t.1);
                }
            } else {
                let o2 = if spec_starts_with_kw(cc, "except"@) { out + e1 } else { out };
                lemma_r_try(g, l, i1, ind, did, o2, lane, c, m);
                lemma_ids_sub_cat(out, e1, s);
                lemma_ids_sub_cat(o2, d, s);
                let t = w_try(g, l, i1, ind, did, o2, lane, c, m);
                lemma_rep_widen(g, t.0, o2 + d, s, t.1);
            }
        } else if cc == "finally"@ {
            if nested {
                let b = w_walk(g, l, i1, l[i1].indent, out, lane, c, m);
                lemma_r_walk(g, l, i1, l[i1].indent, out, lane, c, m);
                lemma_w_walk(g, l, i1, l[i1].indent, out, lane, c, m);
                lemma_rep_widen(g, b.0, out, s, b.1);
                if adv(b.2, idx, l.len()) {
                    let s2 = b.1 + d;
                    lemma_r_try(b.0, l, b.2, ind, did, b.1, lane, c, m);
                    lemma_w_try(b.0, l, b.2, ind, did, b.1, lane, c, m);
                    if b.0.next_id <= usize::MAX + 1 {
                        lemma_ex_of_sub(g, b.0, s, d);
                        lemma_ex_concat(g, b.0, s, b.1, d);
                    }
                    let t = w_try(b.0, l, b.2, ind, did, b.1, lane, c, m);
                    lemma_rep_seq(g, b.0, t.0, s, s2, t.1);
                }
            } else {
                lemma_r_try(g, l, i1, ind, did, out, lane, c, m);
            }
        } else {
            lemma_ex_of_sub(g, g, s, out);
        }
    }
}

/// Room for the nodes a walk from `idx` may add, and for the lanes it
/// may shift to, within `usize` and `i32`.
pub open spec fn walk_pre(gb: GraphBuilder, lines: Seq<LineInfo>, idx: int, inc: Seq<Exit>, lane: int) -> bool {
    &&& gb.wf()
    &&& exits_ok(exits_view(inc), gb.next_id)
    &&& codes_ok(lines)
    &&& lines.len() <= 0x1000_0000
    &&& 0 <= idx <= lines.len()
    &&& gb.next_id + (lines.len() - idx) < usize::MAX
    &&& -0x4000_0000 + (lines.len() - idx) <= lane <= 0x4000_0000 - (lines.len() - idx)
}

pub open spec fn walk_post(g0: GraphBuilder, gb: GraphBuilder, lines: Seq<LineInfo>, idx: int, out: Seq<Exit>, ni: int) -> bool {
    &&& gb.wf()
    &&& idx <= ni <= lines.len()
    &&& g0.next_id <= gb.next_id <= g0.next_id + (ni - idx)
    &&& exits_ok(exits_view(out), gb.next_id)
}

fn cond_text_vec(code: &Vec<char>) -> (r: Vec<char>)
    ensures r@ == spec_cond_text(code@),
{
    let t = trim_end_char_vec(code, ':');
    let mut p: usize = 0;
    while p < t.len() && t[p] != ' '
        invariant p <= t.len(), forall|k: int| 0 <= k < p ==> t@[k] != ' ',
            crate::text::first_char_idx(t@, ' ', p as int) == crate::text::first_char_idx(t@, ' ', 0),
        decreases t.len() - p,
    {
        p += 1;
    }
    if p < t.len() {
        assert(t@.contains(' ')) by { assert(t@[p as int] == ' '); }
        let rest = slice_vec(&t, p + 1, t.len());
        assert(rest@ =~= t@.skip(p + 1));
        trim_vec(&rest)
    } else {
        assert(!t@.contains(' '));
        slice_vec(code, 0, code.len())
    }
}

fn copy_line(l: &LineInfo) -> (r: LineInfo)
    ensures r@ == l@,
{
    LineInfo { lineno: l.lineno, line_end: l.line_end, indent: l.indent, code: l.code.clone() }
}

/// Parses an `if`/`elif`/`else` chain starting at line `idx`: one decision
/// node per test, whose `yes` exit enters its body and whose `no` exit
/// leads to the next test, the `else` body, or out of the chain.
#[verifier::spinoff_prover]
#[verifier::rlimit(30)]
pub fn parse_if_chain(
    gb: &mut GraphBuilder,
    lines: &[LineInfo],
    idx: usize,
    indent: usize,
    incoming: Vec<Exit>,
    lane: i32,
    compact: bool,
    compact_max_stmts: usize,
) -> (r: (Vec<Exit>, usize))
    requires walk_pre(*old(gb), lines@, idx as int, incoming@, lane as int),
    ensures
        walk_post(*old(gb), *final(gb), lines@, idx as int, r.0@, r.1 as int),
        (gs(*final(gb)), exits_view(r.0@), r.1 as int) == w_if(gs(*old(gb)), lines_view(lines@), idx as int, indent,
            exits_view(incoming@), lane as int, Seq::empty(), compact, compact_max_stmts),
        (idx < lines@.len() && lines@[idx as int].indent == indent && (spec_starts_with_kw(lines@[idx as int].code@, "if"@)
            || spec_starts_with_kw(lines@[idx as int].code@, "elif"@))) ==> r.1 > idx,
    decreases lines@.len() - idx, 1int,
{
    let ghost l = lines_view(lines@);
    let ghost g0 = *gb;
    let ghost target = w_if(gs(*gb), l, idx as int, indent, exits_view(incoming@), lane as int, Seq::empty(), compact, compact_max_stmts);
    let mut i = idx;
    let mut cur_in = incoming;
    let mut cur_lane = lane;
    let mut final_out: Vec<Exit> = Vec::new();
    assert(exits_view(final_out@) =~= Seq::<ExitV>::empty());
    loop
        invariant
            l == lines_view(lines@), codes_ok(lines@), lines@.len() <= 0x1000_0000,
            idx <= i <= lines@.len(),
            g0 == *old(gb),
            target == w_if(gs(g0), l, idx as int, indent, exits_view(incoming@), lane as int, Seq::empty(), compact, compact_max_stmts),
            gb.wf(), g0.wf(),
            g0.next_id + (lines@.len() - idx) < usize::MAX,
            g0.next_id <= gb.next_id <= g0.next_id + (i - idx),
            -0x4000_0000 + (lines@.len() - idx) <= lane <= 0x4000_0000 - (lines@.len() - idx),
            lane <= cur_lane <= lane + (i - idx),
            exits_ok(exits_view(cur_in@), gb.next_id),
            exits_ok(exits_view(final_out@), gb.next_id),
            i == idx ==> gb.next_id == g0.next_id,
            w_if(gs(*gb), l, i as int, indent, exits_view(cur_in@), cur_lane as int, exits_view(final_out@), compact, compact_max_stmts)
                == target,
        decreases lines@.len() - i,
    {
        let ghost st0 = gs(*gb);
        let ghost cur0 = exits_view(cur_in@);
        let ghost fo0 = exits_view(final_out@);
        if i >= lines.len() || lines[i].indent != indent
            || !(starts_with_kw(lines[i].code.as_str(), "if") || starts_with_kw(lines[i].code.as_str(), "elif")) {
            proof { lemma_exits_ok_concat(fo0, cur0, gb.next_id); }
            append_exits(&mut final_out, cur_in);
            return (final_out, i);
        }
        let lineno = lines[i].lineno;
        let code_chars = chars_of(lines[i].code.as_str());
        let cond = cond_text_vec(&code_chars);
        let mut text = lit("if ");
        append_chars(&mut text, &cond);
        let did = gb.add_node(Shape::Decision, string_of(&text), Some(lineno), Some(lineno), cur_lane);
        gb.connect(&cur_in, did, None);
        let ghost g2 = gs(*gb);
        assert(g2 == g_connect(g_add(st0, Shape::Decision, "if "@ + spec_cond_text(l[i as int].code), Some(lineno), Some(lineno), cur_lane as int).0, cur0, did));
        let yes = exit_with(did, "yes");
        let yes_out: Vec<Exit>;
        match body_start_indent(lines, i, indent) {
            Some((bi, bindent)) => {
                let (o, ni) = walk_block(gb, lines, bi, bindent, yes, cur_lane - 1, compact, compact_max_stmts);
                i = ni;
                yes_out = o;
            },
            None => {
                i += 1;
                yes_out = yes;
            },
        }
        let ghost b2 = i as int;
        assert(b2 > idx);
        proof { lemma_exits_ok_mono(fo0, st0.next_id as usize, gb.next_id); }
        let ghost yv = exits_view(yes_out@);
        proof { lemma_exits_ok_concat(fo0, yv, gb.next_id); }
        append_exits(&mut final_out, yes_out);
        cur_in = exit_with(did, "no");
        if i >= lines.len() || lines[i].indent != indent
            || (!starts_with_kw(lines[i].code.as_str(), "elif") && !str_eq(lines[i].code.as_str(), "else:")) {
            let ghost fo2 = exits_view(final_out@);
            proof { lemma_exits_ok_concat(fo2, exits_view(cur_in@), gb.next_id); }
            append_exits(&mut final_out, cur_in);
            return (final_out, i);
        }
        if str_eq(lines[i].code.as_str(), "else:") {
            let ghost n_before = gb.next_id;
            let no = exit_with(did, "no");
            let else_out: Vec<Exit>;
            match body_start_indent(lines, i, indent) {
                Some((bi, bindent)) => {
                    let (o, ni) = walk_block(gb, lines, bi, bindent, no, cur_lane + 1, compact, compact_max_stmts);
                    i = ni;
                    else_out = o;
                },
                None => {
                    i += 1;
                    else_out = no;
                },
            }
            let ghost fo2 = exits_view(final_out@);
            proof {
                lemma_exits_ok_mono(fo2, n_before, gb.next_id);
                lemma_exits_ok_concat(fo2, exits_view(else_out@), gb.next_id);
            }
            append_exits(&mut final_out, else_out);
            return (final_out, i);
        }
        cur_lane += 1;
    }
}

/// Adds a `next` edge from every exit of a loop body back to the loop
/// node `lid`.
fn push_next_edges(gb: &mut GraphBuilder, exits: &Vec<Exit>, lid: usize)
    requires old(gb).wf(), 1 <= lid < old(gb).next_id, exits_ok(exits_view(exits@), old(gb).next_id),
    ensures
        final(gb).wf(),
        final(gb).nodes@ == old(gb).nodes@,
        final(gb).next_id == old(gb).next_id,
        edges_view(final(gb).edges@) == edges_view(old(gb).edges@) + next_edges(exits_view(exits@), lid),
{
    let ghost e0 = edges_view(gb.edges@);
    let ghost ev = exits_view(exits@);
    let mut k: usize = 0;
    while k < exits.len()
        invariant
            k <= exits.len(), gb.wf(), 1 <= lid < gb.next_id, ev == exits_view(exits@), exits_ok(ev, gb.next_id),
            gb.nodes@ == old(gb).nodes@, gb.next_id == old(gb).next_id,
            edges_view(gb.edges@) == e0 + next_edges(ev.take(k as int), lid),
        decreases exits.len() - k,
    {
        assert(ev[k as int] == exits@[k as int]@);
        let ghost before = edges_view(gb.edges@);
        gb.edges.push(Edge { from: exits[k].node_id, to: lid, label: Some(String::from_str("next")), back_edge: false });
        assert(edges_view(gb.edges@) =~= before.push(gb.edges@.last()@));
        k += 1;
        assert(next_edges(ev.take(k as int), lid) =~= next_edges(ev.take(k - 1), lid).push(gb.edges@.last()@));
    }
    assert(ev.take(exits.len() as int) =~= ev);
}

/// Walks the statements of a block at indentation `indent` from line
/// `idx` until the first line indented less, adding their nodes and edges;
/// returns the block's exits and that line's index (`w_walk`). The graph
/// only grows, every new edge leaves an incoming exit or a new node and
/// leads to a new node, the exits are among the incoming exits and the new
/// nodes, and incoming exits give at least one exit.
pub fn walk_block(
    gb: &mut GraphBuilder,
    lines: &[LineInfo],
    idx: usize,
    indent: usize,
    incoming: Vec<Exit>,
    lane: i32,
    compact: bool,
    compact_max_stmts: usize,
) -> (r: (Vec<Exit>, usize))
    requires walk_pre(*old(gb), lines@, idx as int, incoming@, lane as int),
    ensures
        walk_post(*old(gb), *final(gb), lines@, idx as int, r.0@, r.1 as int),
        (gs(*final(gb)), exits_view(r.0@), r.1 as int) == w_walk(gs(*old(gb)), lines_view(lines@), idx as int, indent,
            exits_view(incoming@), lane as int, compact, compact_max_stmts),
        r.1 == lines@.len() || lines@[r.1 as int].indent < indent,
        grows(gs(*old(gb)), gs(*final(gb))),
        walk_rep(gs(*old(gb)), gs(*final(gb)), exits_view(incoming@), exits_view(r.0@)),
        incoming@.len() > 0 ==> r.0@.len() > 0,
    decreases lines@.len() - idx, 3int,
{
    let ghost l = lines_view(lines@);
    let ghost g0 = *gb;
    let ghost inc0 = exits_view(incoming@);
    let ghost target = w_walk(gs(*gb), l, idx as int, indent, exits_view(incoming@), lane as int, compact, compact_max_stmts);
    let mut i = idx;
    let mut cur = incoming;
    while i < lines.len() && lines[i].indent >= indent
        invariant
            l == lines_view(lines@), codes_ok(lines@), lines@.len() <= 0x1000_0000,
            idx <= i <= lines@.len(),
            gb.wf(),
            g0.next_id + (lines@.len() - idx) < usize::MAX,
            g0.next_id <= gb.next_id <= g0.next_id + (i - idx),
            -0x4000_0000 + (lines@.len() - idx) <= lane <= 0x4000_0000 - (lines@.len() - idx),
            exits_ok(exits_view(cur@), gb.next_id),
            w_walk(gs(*gb), l, i as int, indent, exits_view(cur@), lane as int, compact, compact_max_stmts) == target,
        decreases lines@.len() - i,
    {
        assert(l[i as int] == lines@[i as int]@);
        if lines[i].indent > indent {
            i += 1;
            continue;
        }
        let (out, ni) = walk_stmt(gb, lines, i, indent, cur, lane, compact, compact_max_stmts);
        cur = out;
        i = ni;
    }
    proof {
        if i < lines@.len() { assert(l[i as int] == lines@[i as int]@); }
        lemma_r_walk(gs(g0), l, idx as int, indent, inc0, lane as int, compact, compact_max_stmts);
        lemma_w_walk(gs(g0), l, idx as int, indent, inc0, lane as int, compact, compact_max_stmts);
    }
    (cur, i)
}

/// Requirements of a statement parser at line `i` of a block at `indent`.
pub open spec fn stmt_pre(gb: GraphBuilder, lines: Seq<LineInfo>, i: int, indent: usize, inc: Seq<Exit>, lane: int) -> bool {
    walk_pre(gb, lines, i, inc, lane) && i < lines.len() && lines[i].indent == indent
}

/// Parses the statement at line `i` (`w_stmt`).
fn walk_stmt(
    gb: &mut GraphBuilder,
    lines: &[LineInfo],
    i: usize,
    indent: usize,
    cur: Vec<Exit>,
    lane: i32,
    compact: bool,
    compact_max_stmts: usize,
) -> (r: (Vec<Exit>, usize))
    requires stmt_pre(*old(gb), lines@, i as int, indent, cur@, lane as int),
    ensures
        walk_post(*old(gb), *final(gb), lines@, i as int, r.0@, r.1 as int),
        r.1 > i,
        (gs(*final(gb)), exits_view(r.0@), r.1 as int) == w_stmt(gs(*old(gb)), lines_view(lines@), i as int, indent,
            exits_view(cur@), lane as int, compact, compact_max_stmts),
    decreases lines@.len() - i, 2int,
{
    let ghost l = lines_view(lines@);
    assert(l[i as int] == lines@[i as int]@);
    assert(lines@[i as int].code@.len() <= 0x1000_0000);
    let code = lines[i].code.as_str();
    if starts_with_kw(code, "if") {
        return parse_if_chain(gb, lines, i, indent, cur, lane, compact, compact_max_stmts);
    }
    if starts_with_kw(code, "for") || starts_with_kw(code, "while") {
        return walk_loop_stmt(gb, lines, i, indent, cur, lane, compact, compact_max_stmts);
    }
    if starts_with_kw(code, "try") {
        return walk_try_stmt(gb, lines, i, indent, cur, lane, compact, compact_max_stmts);
    }
    if starts_with_kw(code, "def") {
        return walk_def_stmt(gb, lines, i, indent, cur, lane, compact, compact_max_stmts);
    }
    if starts_with_kw(code, "with") {
        return walk_with_stmt(gb, lines, i, indent, cur, lane, compact, compact_max_stmts);
    }
    if compact && is_groupable_process(code) {
        return walk_group_stmt(gb, lines, i, indent, cur, lane, compact_max_stmts);
    }
    let lineno = lines[i].lineno;
    let pid = gb.add_node(Shape::Process, stmt_text_from_line(code), Some(lineno), Some(lineno), lane);
    gb.connect(&cur, pid, None);
    (exit_bare(pid), i + 1)
}

fn walk_loop_stmt(
    gb: &mut GraphBuilder,
    lines: &[LineInfo],
    i: usize,
    indent: usize,
    cur: Vec<Exit>,
    lane: i32,
    compact: bool,
    compact_max_stmts: usize,
) -> (r: (Vec<Exit>, usize))
    requires stmt_pre(*old(gb), lines@, i as int, indent, cur@, lane as int),
    ensures
        walk_post(*old(gb), *final(gb), lines@, i as int, r.0@, r.1 as int),
        r.1 > i,
        (gs(*final(gb)), exits_view(r.0@), r.1 as int) == w_loop_stmt(gs(*old(gb)), lines_view(lines@), i as int, indent,
            exits_view(cur@), lane as int, compact, compact_max_stmts),
    decreases lines@.len() - i, 1int,
{
    let ghost l = lines_view(lines@);
    assert(l[i as int] == lines@[i as int]@);
    assert(lines@[i as int].code@.len() <= 0x1000_0000);
    let code = lines[i].code.as_str();
    let lineno = lines[i].lineno;
    let header = if starts_with_kw(code, "for") {
        normalize_loop_header(code)
    } else {
        string_of(&trim_end_char_vec(&chars_of(code), ':'))
    };
    let lid = gb.add_node(Shape::Loop, header, Some(lineno), Some(lineno), lane);
    gb.connect(&cur, lid, None);
    let mut idx = i + 1;
    let enter = exit_with(lid, "enter");
    let body_out = if idx < lines.len() && lines[idx].indent > indent {
        let bind = lines[idx].indent;
        assert(l[idx as int] == lines@[idx as int]@);
        let (o, ni) = walk_block(gb, lines, idx, bind, enter, lane, compact, compact_max_stmts);
        idx = ni;
        o
    } else {
        enter
    };
    push_next_edges(gb, &body_out, lid);
    if idx < lines.len() && lines[idx].indent == indent && str_eq(lines[idx].code.as_str(), "else:") {
        assert(l[idx as int] == lines@[idx as int]@);
        idx += 1;
        let done = exit_with(lid, "done");
        if idx < lines.len() && lines[idx].indent > indent {
            let bind = lines[idx].indent;
            assert(l[idx as int] == lines@[idx as int]@);
            walk_block(gb, lines, idx, bind, done, lane + 1, compact, compact_max_stmts)
        } else {
            (done, idx)
        }
    } else {
        proof { if idx < lines@.len() { assert(l[idx as int] == lines@[idx as int]@); } }
        (exit_with(lid, "done"), idx)
    }
}

fn walk_try_stmt(
    gb: &mut GraphBuilder,
    lines: &[LineInfo],
    i: usize,
    indent: usize,
    cur: Vec<Exit>,
    lane: i32,
    compact: bool,
    compact_max_stmts: usize,
) -> (r: (Vec<Exit>, usize))
    requires stmt_pre(*old(gb), lines@, i as int, indent, cur@, lane as int),
    ensures
        walk_post(*old(gb), *final(gb), lines@, i as int, r.0@, r.1 as int),
        r.1 > i,
        (gs(*final(gb)), exits_view(r.0@), r.1 as int) == w_try_stmt(gs(*old(gb)), lines_view(lines@), i as int, indent,
            exits_view(cur@), lane as int, compact, compact_max_stmts),
    decreases lines@.len() - i, 1int,
{
    let ghost l = lines_view(lines@);
    let ghost g0 = *gb;
    assert(l[i as int] == lines@[i as int]@);
    let lineno = lines[i].lineno;
    let did = gb.add_node(Shape::Decision, String::from_str("try/except"), Some(lineno), Some(lineno), lane);
    gb.connect(&cur, did, None);
    let mut idx = i + 1;
    let tr = exit_with(did, "try");
    let mut out = if idx < lines.len() && lines[idx].indent > indent {
        let bind = lines[idx].indent;
        assert(l[idx as int] == lines@[idx as int]@);
        let (o, ni) = walk_block(gb, lines, idx, bind, tr, lane, compact, compact_max_stmts);
        idx = ni;
        o
    } else {
        tr
    };
    let ghost t_target = w_try(gs(*gb), l, idx as int, indent, did, exits_view(out@), lane as int, compact, compact_max_stmts);
    let ghost i_mid = idx as int;
    let mut go = true;
    while go && idx < lines.len() && lines[idx].indent == indent
        invariant
            l == lines_view(lines@), codes_ok(lines@), lines@.len() <= 0x1000_0000,
            i < i_mid <= idx <= lines@.len(),
            gb.wf(), 1 <= did < gb.next_id,
            g0.next_id + (lines@.len() - i) < usize::MAX,
            g0.next_id <= gb.next_id <= g0.next_id + (idx - i),
            -0x4000_0000 + (lines@.len() - i) <= lane <= 0x4000_0000 - (lines@.len() - i),
            exits_ok(exits_view(out@), gb.next_id),
            w_try(gs(*gb), l, idx as int, indent, did, exits_view(out@), lane as int, compact, compact_max_stmts) == t_target,
            !go ==> t_target == (gs(*gb), exits_view(out@), idx as int),
        decreases lines@.len() - idx, if go { 1int } else { 0int },
    {
        let ghost sti = gs(*gb);
        let ghost outi = exits_view(out@);
        let ghost ii = idx as int;
        assert(l[ii] == lines@[ii]@);
        let cc = trim_end_char_vec(&chars_of(lines[idx].code.as_str()), ':');
        let ccs = string_of(&cc);
        if starts_with_kw(ccs.as_str(), "except") {
            idx += 1;
            if idx < lines.len() && lines[idx].indent > indent {
                let bind = lines[idx].indent;
                assert(l[idx as int] == lines@[idx as int]@);
                let (o, ni) = walk_block(gb, lines, idx, bind, exit_owned(did, &cc), lane + 1, compact, compact_max_stmts);
                idx = ni;
                proof { lemma_exits_ok_concat(outi, exits_view(o@), gb.next_id); }
                append_exits(&mut out, o);
            } else {
                proof { if idx < lines@.len() { assert(l[idx as int] == lines@[idx as int]@); } }
                let one = exit_owned(did, &cc);
                proof { lemma_exits_ok_concat(outi, exits_view(one@), gb.next_id); }
                append_exits(&mut out, one);
            }
        } else if str_eq(ccs.as_str(), "else") {
            idx += 1;
            if idx < lines.len() && lines[idx].indent > indent {
                let bind = lines[idx].indent;
                assert(l[idx as int] == lines@[idx as int]@);
                let (o, ni) = walk_block(gb, lines, idx, bind, exit_with(did, "else"), lane, compact, compact_max_stmts);
                idx = ni;
                proof { lemma_exits_ok_concat(outi, exits_view(o@), gb.next_id); }
                append_exits(&mut out, o);
            } else {
                proof { if idx < lines@.len() { assert(l[idx as int] == lines@[idx as int]@); } }
            }
        } else if str_eq(ccs.as_str(), "finally") {
            idx += 1;
            if idx < lines.len() && lines[idx].indent > indent {
                let bind = lines[idx].indent;
                assert(l[idx as int] == lines@[idx as int]@);
                let (o, ni) = walk_block(gb, lines, idx, bind, out, lane, compact, compact_max_stmts);
                idx = ni;
                out = o;
            } else {
                proof { if idx < lines@.len() { assert(l[idx as int] == lines@[idx as int]@); } }
            }
        } else {
            go = false;
        }
    }
    proof { if idx < lines@.len() { assert(l[idx as int] == lines@[idx as int]@); } }
    if out.len() == 0 { (exit_bare(did), idx) } else { (out, idx) }
}

fn walk_def_stmt(
    gb: &mut GraphBuilder,
    lines: &[LineInfo],
    i: usize,
    indent: usize,
    cur: Vec<Exit>,
    lane: i32,
    compact: bool,
    compact_max_stmts: usize,
) -> (r: (Vec<Exit>, usize))
    requires stmt_pre(*old(gb), lines@, i as int, indent, cur@, lane as int),
    ensures
        walk_post(*old(gb), *final(gb), lines@, i as int, r.0@, r.1 as int),
        r.1 > i,
        (gs(*final(gb)), exits_view(r.0@), r.1 as int) == w_def_stmt(gs(*old(gb)), lines_view(lines@), i as int, indent,
            exits_view(cur@), lane as int, compact, compact_max_stmts),
    decreases lines@.len() - i, 1int,
{
    let ghost l = lines_view(lines@);
    assert(l[i as int] == lines@[i as int]@);
    assert(lines@[i as int].code@.len() <= 0x1000_0000);
    let lineno = lines[i].lineno;
    let fid = gb.add_node(Shape::Process, stmt_text_from_line(lines[i].code.as_str()), Some(lineno), Some(lineno), lane);
    gb.connect(&cur, fid, None);
    let idx = i + 1;
    if idx < lines.len() && lines[idx].indent > indent {
        let bind = lines[idx].indent;
        assert(l[idx as int] == lines@[idx as int]@);
        walk_block(gb, lines, idx, bind, exit_with(fid, "enter"), lane + 1, compact, compact_max_stmts)
    } else {
        proof { if idx < lines@.len() { assert(l[idx as int] == lines@[idx as int]@); } }
        (exit_bare(fid), idx)
    }
}

fn walk_with_stmt(
    gb: &mut GraphBuilder,
    lines: &[LineInfo],
    i: usize,
    indent: usize,
    cur: Vec<Exit>,
    lane: i32,
    compact: bool,
    compact_max_stmts: usize,
) -> (r: (Vec<Exit>, usize))
    requires stmt_pre(*old(gb), lines@, i as int, indent, cur@, lane as int),
    ensures
        walk_post(*old(gb), *final(gb), lines@, i as int, r.0@, r.1 as int),
        r.1 > i,
        (gs(*final(gb)), exits_view(r.0@), r.1 as int) == w_with_stmt(gs(*old(gb)), lines_view(lines@), i as int, indent,
            exits_view(cur@), lane as int, compact, compact_max_stmts),
    decreases lines@.len() - i, 1int,
{
    let ghost l = lines_view(lines@);
    assert(l[i as int] == lines@[i as int]@);
    let lineno = lines[i].lineno;
    let wid = gb.add_node(Shape::Process, String::from_str("with ..."), Some(lineno), Some(lineno), lane);
    gb.connect(&cur, wid, None);
    let idx = i + 1;
    if idx < lines.len() && lines[idx].indent > indent {
        let bind = lines[idx].indent;
        assert(l[idx as int] == lines@[idx as int]@);
        walk_block(gb, lines, idx, bind, exit_bare(wid), lane, compact, compact_max_stmts)
    } else {
        proof { if idx < lines@.len() { assert(l[idx as int] == lines@[idx as int]@); } }
        (exit_bare(wid), idx)
    }
}

fn walk_group_stmt(
    gb: &mut GraphBuilder,
    lines: &[LineInfo],
    i: usize,
    indent: usize,
    cur: Vec<Exit>,
    lane: i32,
    compact_max_stmts: usize,
) -> (r: (Vec<Exit>, usize))
    requires stmt_pre(*old(gb), lines@, i as int, indent, cur@, lane as int),
    ensures
        walk_post(*old(gb), *final(gb), lines@, i as int, r.0@, r.1 as int),
        r.1 > i,
        (gs(*final(gb)), exits_view(r.0@), r.1 as int) == w_group_stmt(gs(*old(gb)), lines_view(lines@), i as int, indent,
            exits_view(cur@), lane as int, compact_max_stmts),
{
    let ghost l = lines_view(lines@);
    let mut j = i + 1;
    while j < lines.len() && j - i < compact_max_stmts && lines[j].indent == indent
        && is_groupable_process(lines[j].code.as_str())
        invariant
            l == lines_view(lines@), i < j <= lines@.len(),
            group_end(l, j as int, indent, compact_max_stmts, i as int)
                == group_end(l, i + 1, indent, compact_max_stmts, i as int),
        decreases lines@.len() - j,
    {
        assert(l[j as int] == lines@[j as int]@);
        j += 1;
    }
    proof {
        if j < lines@.len() { assert(l[j as int] == lines@[j as int]@); }
    }
    let mut group: Vec<LineInfo> = Vec::new();
    let mut k = i;
    while k < j
        invariant i <= k <= j, j <= lines@.len(), l == lines_view(lines@), codes_ok(lines@),
            lines_view(group@) == l.subrange(i as int, k as int), codes_ok(group@),
        decreases j - k,
    {
        let ghost g0l = lines_view(group@);
        group.push(copy_line(&lines[k]));
        assert(lines_view(group@) =~= g0l.push(lines@[k as int]@));
        k += 1;
        assert(l.subrange(i as int, k as int) =~= l.subrange(i as int, k - 1).push(l[k - 1]));
    }
    assert(codes_of(group@) =~= l.subrange(i as int, j as int).map_values(|x: LineView| x.code));
    let text = summarize_group(&group);
    assert(l[i as int] == lines@[i as int]@);
    assert(l[j - 1] == lines@[j - 1]@);
    let pid = gb.add_node(Shape::Process, text, Some(lines[i].lineno), Some(lines[j - 1].line_end), lane);
    gb.connect(&cur, pid, None);
    (exit_bare(pid), j)
}

/// Whether a raw line holds nothing but whitespace and a comment.
pub open spec fn is_blank(raw: Seq<char>) -> bool {
    spec_trim(spec_strip_inline_comment(raw)).len() == 0
}

/// Whether a raw line defines function `f`.
pub open spec fn is_def_of(raw: Seq<char>, f: Seq<char>) -> bool {
    let code = spec_trim(spec_strip_inline_comment(raw));
    code.len() > 0 && (spec_starts_with_kw(code, "def"@) || spec_starts_with_kw(code, "async def"@))
        && seq_contains(code, f + "("@)
}

/// Index of the first line at or after `k` that defines `f`.
pub open spec fn find_def(ls: Seq<Seq<char>>, f: Seq<char>, k: int) -> Option<int>
    decreases ls.len() - k,
{
    if k < 0 || k >= ls.len() { None } else if is_def_of(ls[k], f) { Some(k) } else { find_def(ls, f, k + 1) }
}

/// The numbered lines of a function body from line index `k`: blank lines
/// skipped, ending at the first line indented no deeper than the `def`.
pub open spec fn body_phys(ls: Seq<Seq<char>>, k: int, def_indent: int) -> Seq<(usize, Seq<char>)>
    decreases ls.len() - k,
{
    if k < 0 || k >= ls.len() {
        Seq::empty()
    } else if is_blank(ls[k]) {
        body_phys(ls, k + 1, def_indent)
    } else if indent_from(ls[k], 0) <= def_indent {
        Seq::empty()
    } else {
        seq![((k + 1) as usize, ls[k])] + body_phys(ls, k + 1, def_indent)
    }
}

/// A function body keeps every line it should, from line index `k` on: each
/// non-blank line such that no non-blank line from `k` up to it is indented
/// as shallow as the `def`. Blank lines do not end the body.
pub proof fn lemma_body_keeps(ls: Seq<Seq<char>>, k: int, def_indent: int)
    requires 0 <= k,
    ensures
        forall|j: int| #![trigger ls[j]] k <= j < ls.len() && !is_blank(ls[j])
            && (forall|i: int| k <= i <= j && !is_blank(#[trigger] ls[i]) ==> indent_from(ls[i], 0) > def_indent)
            ==> body_phys(ls, k, def_indent).contains(((j + 1) as usize, ls[j])),
    decreases ls.len() - k,
{
    if k < ls.len() {
        lemma_body_keeps(ls, k + 1, def_indent);
        let b = body_phys(ls, k, def_indent);
        let bn = body_phys(ls, k + 1, def_indent);
        assert forall|j: int| #![trigger ls[j]] k <= j < ls.len() && !is_blank(ls[j])
            && (forall|i: int| k <= i <= j && !is_blank(#[trigger] ls[i]) ==> indent_from(ls[i], 0) > def_indent)
            implies b.contains(((j + 1) as usize, ls[j])) by {
            if is_blank(ls[k]) {
                assert(j != k);
                assert(forall|i: int| k + 1 <= i <= j && !is_blank(#[trigger] ls[i]) ==> indent_from(ls[i], 0) > def_indent);
            } else {
                assert(indent_from(ls[k], 0) > def_indent);
                let h = ((k + 1) as usize, ls[k]);
                assert(b == seq![h] + bn);
                if j == k {
                    assert(b[0] == h);
                } else {
                    assert(forall|i: int| k + 1 <= i <= j && !is_blank(#[trigger] ls[i]) ==> indent_from(ls[i], 0) > def_indent);
                    assert(bn.contains(((j + 1) as usize, ls[j])));
                    let w = choose|w: int| 0 <= w < bn.len() && bn[w] == ((j + 1) as usize, ls[j]);
                    assert(b[w + 1] == bn[w]);
                }
            }
        }
    }
}

/// A function body holds nothing else, from line index `k` on: each entry
/// is a non-blank source line after `k`, under its own number, indented
/// deeper than the `def`, with no non-blank line from `k` up to it indented
/// as shallow as the `def`.
pub proof fn lemma_body_only(ls: Seq<Seq<char>>, k: int, def_indent: int)
    requires 0 <= k, ls.len() < usize::MAX,
    ensures ({
        let b = body_phys(ls, k, def_indent);
        &&& forall|x: int| 0 <= x < b.len() ==> k < (#[trigger] b[x]).0 <= ls.len() && b[x].1 == ls[b[x].0 - 1]
                && !is_blank(b[x].1) && indent_from(b[x].1, 0) > def_indent
        &&& forall|x: int, i: int| 0 <= x < b.len() && k <= i < (#[trigger] b[x]).0 && !is_blank(#[trigger] ls[i])
                ==> indent_from(ls[i], 0) > def_indent
    }),
    decreases ls.len() - k,
{
    if k < ls.len() {
        lemma_body_only(ls, k + 1, def_indent);
        let b = body_phys(ls, k, def_indent);
        let bn = body_phys(ls, k + 1, def_indent);
        if !is_blank(ls[k]) && indent_from(ls[k], 0) > def_indent {
            let h = ((k + 1) as usize, ls[k]);
            assert(b == seq![h] + bn);
            assert(b[0] == h);
            assert forall|x: int| 0 <= x < b.len() implies k < (#[trigger] b[x]).0 <= ls.len() && b[x].1 == ls[b[x].0 - 1]
                && !is_blank(b[x].1) && indent_from(b[x].1, 0) > def_indent by {
                if x > 0 { assert(b[x] == bn[x - 1]); }
            }
            assert forall|x: int, i: int| 0 <= x < b.len() && k <= i < (#[trigger] b[x]).0 && !is_blank(#[trigger] ls[i])
                implies indent_from(ls[i], 0) > def_indent by {
                if x > 0 && i > k { assert(b[x] == bn[x - 1]); }
            }
        }
    }
}

/// A function body keeps its lines in source order.
pub proof fn lemma_body_ordered(ls: Seq<Seq<char>>, k: int, def_indent: int)
    requires 0 <= k, ls.len() < usize::MAX,
    ensures ({
        let b = body_phys(ls, k, def_indent);
        forall|x: int, y: int| 0 <= x < y < b.len() ==> (#[trigger] b[x]).0 < (#[trigger] b[y]).0
    }),
    decreases ls.len() - k,
{
    if k < ls.len() {
        lemma_body_ordered(ls, k + 1, def_indent);
        lemma_body_only(ls, k + 1, def_indent);
        let b = body_phys(ls, k, def_indent);
        let bn = body_phys(ls, k + 1, def_indent);
        if !is_blank(ls[k]) && indent_from(ls[k], 0) > def_indent {
            let h = ((k + 1) as usize, ls[k]);
            assert(b == seq![h] + bn);
            assert forall|x: int, y: int| 0 <= x < y < b.len() implies (#[trigger] b[x]).0 < (#[trigger] b[y]).0 by {
                assert(b[y] == bn[y - 1]);
                if x > 0 { assert(b[x] == bn[x - 1]); } else { assert(b[x] == h); }
            }
        }
    }
}

pub open spec fn all_phys(ls: Seq<Seq<char>>) -> Seq<(usize, Seq<char>)> {
    Seq::new(ls.len(), |i: int| ((i + 1) as usize, ls[i]))
}

/// The logical lines to parse: the whole source, or the body of function
/// `f` (`None` when `f` is not defined).
pub open spec fn spec_target_lines(src: Seq<char>, function: Option<Seq<char>>) -> Option<Seq<LineView>> {
    let ls = split_lines(src);
    match function {
        None => Some(spec_logical_lines(all_phys(ls))),
        Some(f) => match find_def(ls, f, 0) {
            None => None,
            Some(d) => Some(spec_logical_lines(body_phys(ls, d + 1, indent_from(ls[d], 0)))),
        },
    }
}

pub open spec fn opt_str_view(o: Option<&str>) -> Option<Seq<char>> {
    match o { Some(s) => Some(s@), None => None }
}

/// The logical lines of the whole source, or of the body of `function`.
pub fn extract_target_lines(src: &str, function: Option<&str>) -> (r: Result<Vec<LineInfo>, ExtractError>)
    requires src@.len() <= 0x0800_0000,
    ensures
        r is Ok <==> spec_target_lines(src@, opt_str_view(function)) is Some,
        r is Ok ==> lines_view(r->Ok_0@) == spec_target_lines(src@, opt_str_view(function))->0
            && codes_ok(r->Ok_0@) && r->Ok_0@.len() <= 0x0800_0001,
        r is Err ==> (r->Err_0 matches ExtractError::FunctionNotFound(name) && function is Some && name@ == function->0@),
{
    let raw_lines = lines_of(src);
    let ghost ls = raw_lines@.map_values(|x: String| x@);
    proof {
        lemma_split_total(src@);
        lemma_lines_total_mono(ls, 0, ls.len() as int);
    }
    let mut physical: Vec<(usize, String)> = Vec::new();
    match function {
        None => {
            let mut k: usize = 0;
            while k < raw_lines.len()
                invariant
                    k <= raw_lines.len(), ls == raw_lines@.map_values(|x: String| x@),
                    lines_total(ls, ls.len() as int) <= 0x0800_0001,
                    phys_view(physical@) == all_phys(ls).take(k as int),
                    phys_total(physical@, physical@.len() as int) == lines_total(ls, k as int),
                    physical@.len() == k,
                decreases raw_lines.len() - k,
            {
                proof { lemma_lines_total_mono(ls, k as int, ls.len() as int); }
                let ghost p0 = phys_view(physical@);
                let ghost pp = physical@;
                physical.push((k + 1, raw_lines[k].clone()));
                assert(phys_view(physical@) =~= p0.push(((k + 1) as usize, ls[k as int])));
                assert(physical@.drop_last() == pp);
                assert(phys_total(physical@, physical@.len() - 1) == phys_total(pp, pp.len() as int)) by {
                    lemma_phys_total_prefix(physical@, pp, pp.len() as int);
                }
                k += 1;
                assert(all_phys(ls).take(k as int) =~= all_phys(ls).take(k - 1).push(((k) as usize, ls[k - 1])));
            }
            assert(all_phys(ls).take(ls.len() as int) =~= all_phys(ls));
            let out = build_logical_lines(&physical);
            return Ok(out);
        },
        Some(fn_name) => {
            let mut pat = chars_of(fn_name);
            pat.push('(');
            proof { reveal_strlit("("); }
            assert(pat@ =~= fn_name@ + "("@);
            let mut k: usize = 0;
            let mut found: Option<usize> = None;
            while k < raw_lines.len() && found.is_none()
                invariant
                    k <= raw_lines.len(), ls == raw_lines@.map_values(|x: String| x@), pat@ == fn_name@ + "("@,
                    lines_total(ls, ls.len() as int) <= 0x0800_0001,
                    found is None ==> find_def(ls, fn_name@, k as int) == find_def(ls, fn_name@, 0),
                    found is Some ==> found->0 < ls.len() && find_def(ls, fn_name@, 0) == Some(found->0 as int),
                decreases raw_lines.len() - k, if found is None { 1int } else { 0int },
            {
                let code_s = strip_inline_comment(raw_lines[k].as_str());
                let code = trim_vec(&chars_of(code_s.as_str()));
                let cs = string_of(&code);
                if code.len() > 0 && (starts_with_kw(cs.as_str(), "def") || starts_with_kw(cs.as_str(), "async def"))
                    && contains_vec(&code, &pat) {
                    found = Some(k);
                } else {
                    k += 1;
                }
            }
            let d = match found {
                Some(d) => d,
                None => {
                    return Err(ExtractError::FunctionNotFound(String::from_str(fn_name)));
                },
            };
            proof { lemma_lines_total_mono(ls, d as int, ls.len() as int); lemma_lines_total_mono(ls, 0, ls.len() as int); }
            let def_indent = leading_indent(raw_lines[d].as_str());
            assert(ls[d as int] == raw_lines@[d as int]@);
            let ghost target = body_phys(ls, d + 1, def_indent as int);
            let mut k = d + 1;
            let mut go = true;
            while go && k < raw_lines.len()
                invariant
                    d < k <= raw_lines.len(), ls == raw_lines@.map_values(|x: String| x@),
                    lines_total(ls, ls.len() as int) <= 0x0800_0001,
                    target == body_phys(ls, d + 1, def_indent as int),
                    go ==> phys_view(physical@) + body_phys(ls, k as int, def_indent as int) == target,
                    !go ==> phys_view(physical@) == target,
                    phys_total(physical@, physical@.len() as int) <= lines_total(ls, k as int),
                    physical@.len() <= k,
                decreases raw_lines.len() - k, if go { 1int } else { 0int },
            {
                proof { lemma_lines_total_mono(ls, k as int, ls.len() as int); lemma_lines_total_mono(ls, k as int, k + 1); }
                let code_s = strip_inline_comment(raw_lines[k].as_str());
                let code = trim_vec(&chars_of(code_s.as_str()));
                if code.len() == 0 {
                    k += 1;
                } else {
                    let ind = leading_indent(raw_lines[k].as_str());
                    if ind <= def_indent {
                        go = false;
                        assert(phys_view(physical@) =~= target);
                    } else {
                        let ghost p0 = phys_view(physical@);
                        let ghost pp = physical@;
                        physical.push((k + 1, raw_lines[k].clone()));
                        assert(phys_view(physical@) =~= p0.push(((k + 1) as usize, ls[k as int])));
                        assert(physical@.drop_last() == pp);
                        proof { lemma_phys_total_prefix(physical@, pp, pp.len() as int); }
                        assert(p0.push(((k + 1) as usize, ls[k as int])) + body_phys(ls, k + 1, def_indent as int)
                            =~= p0 + body_phys(ls, k as int, def_indent as int));
                        k += 1;
                    }
                }
            }
            proof {
                if go { assert(phys_view(physical@) =~= target); }
                lemma_lines_total_mono(ls, k as int, ls.len() as int);
            }
            let out = build_logical_lines(&physical);
            return Ok(out);
        },
    }
}

proof fn lemma_phys_total_prefix(a: Seq<(usize, String)>, b: Seq<(usize, String)>, k: int)
    requires 0 <= k <= b.len(), b.len() <= a.len(), forall|j: int| 0 <= j < b.len() ==> a[j] == b[j],
    ensures phys_total(a, k) == phys_total(b, k),
    decreases k,
{
    if k > 0 {
        lemma_phys_total_prefix(a, b, k - 1);
    }
}

/// Assigns levels by source line rank and marks back edges.
pub fn assign_levels(nodes: &mut Vec<Node>, edges: &mut Vec<Edge>, start_id: usize, end_id: usize)
    requires
        graph_wf(old(nodes)@, old(edges)@, (old(nodes)@.len() + 1) as usize),
        levels_fit(nodes_view(old(nodes)@), edges_view(old(edges)@), start_id, end_id, 1),
    ensures ({
        let lv = spec_final_levels(nodes_view(old(nodes)@), edges_view(old(edges)@), start_id, end_id, 1);
        &&& final(nodes)@.len() == old(nodes)@.len()
        &&& final(edges)@.len() == old(edges)@.len()
        &&& forall|k: int| 0 <= k < final(nodes)@.len() ==>
            (#[trigger] final(nodes)@[k])@ == NodeView { level: Some(lv[k] as i32), ..old(nodes)@[k]@ }
            && lv[k] == final(nodes)@[k].level->0
        &&& forall|k: int| 0 <= k < final(edges)@.len() ==>
            (#[trigger] final(edges)@[k])@ == EdgeView {
                back_edge: is_next(old(edges)@[k]@.label) || lv[old(edges)@[k].to - 1] <= lv[old(edges)@[k].from - 1],
                ..old(edges)@[k]@
            }
    }),
{
    let _ = assign_levels_bucketed(nodes, edges, start_id, end_id, 1);
}

/// The graph before levels: a Start node, the walk of the lines, and an
/// End node that all exits flow into.
pub open spec fn spec_python_built(lines: Seq<LineView>, compact: bool, m: usize) -> (GState, usize) {
    let g0 = GState { nodes: Seq::empty(), edges: Seq::empty(), next_id: 1 };
    let (g1, start) = g_add(g0, Shape::Terminator, "Start"@, Some(1usize), Some(1usize), 0);
    let first = if lines.len() > 0 { lines[0].indent } else { 0usize };
    let w = w_walk(g1, lines, 0, first, bare_exit(start), 0, compact, m);
    let (g3, end) = g_add(w.0, Shape::Terminator, "End"@, None, None, 0);
    (g_connect(g3, w.1, end), end)
}

/// The flow graph of a Python source: of `function` (trimmed), or of the
/// module body when it is empty. Statements are merged into blocks of up
/// to `compact_max_stmts` (at least 1) unless `no_compact`.
pub fn python_flow_graph(src: &str, function: &str, no_compact: bool, compact_max_stmts: usize)
    -> (r: Result<FlowGraph, ExtractError>)
    requires src@.len() <= 0x0800_0000,
    ensures ({
        let f = spec_trim(function@);
        let tl = spec_target_lines(src@, if f.len() == 0 { None } else { Some(f) });
        let m = if compact_max_stmts >= 1 { compact_max_stmts } else { 1usize };
        &&& (tl is None ==> r is Err && r->Err_0 is FunctionNotFound)
        &&& (tl is Some ==> ({
            let (b, end) = spec_python_built(tl->0, !no_compact, m);
            let lv = spec_final_levels(b.nodes, b.edges, 1, end, 1);
            &&& (r is Ok <==> levels_fit(b.nodes, b.edges, 1, end, 1))
            &&& (r is Ok ==> nodes_view(r->Ok_0.nodes@) == levelled_nodes(b.nodes, lv)
                && edges_view(r->Ok_0.edges@) == levelled_edges(b.edges, lv)
                && r->Ok_0.start == 1 && r->Ok_0.end == end
                && forall|k: int| 0 <= k < r->Ok_0.nodes@.len() ==> lv[k] == (#[trigger] r->Ok_0.nodes@[k]).level->0)
            &&& (r is Ok ==> graph_wf(r->Ok_0.nodes@, r->Ok_0.edges@, (r->Ok_0.nodes@.len() + 1) as usize)
                && r->Ok_0.end == r->Ok_0.nodes@.len())
            &&& (r is Err ==> r->Err_0 is GraphTooLarge)
        }))
    }),
{
    let fname_chars = trim_vec(&chars_of(function));
    let fname = string_of(&fname_chars);
    let lines = if fname_chars.len() == 0 {
        extract_target_lines(src, None)
    } else {
        extract_target_lines(src, Some(fname.as_str()))
    };
    let lines = match lines {
        Ok(l) => l,
        Err(e) => return Err(e),
    };
    let m = if compact_max_stmts >= 1 { compact_max_stmts } else { 1 };
    let mut gb = GraphBuilder::new();
    let ghost g0 = GState { nodes: Seq::empty(), edges: Seq::empty(), next_id: 1 };
    assert(gs(gb) =~= g0) by {
        assert(nodes_view(gb.nodes@) =~= Seq::<NodeView>::empty());
        assert(edges_view(gb.edges@) =~= Seq::<EdgeView>::empty());
    }
    let start = gb.add_node(Shape::Terminator, String::from_str("Start"), Some(1), Some(1), 0);
    let ghost g1 = gs(gb);
    assert(g1 == g_add(g0, Shape::Terminator, "Start"@, Some(1usize), Some(1usize), 0).0);
    let first = if lines.len() > 0 { lines[0].indent } else { 0 };
    let ghost l = lines_view(lines@);
    proof { if lines@.len() > 0 { assert(l[0] == lines@[0]@); } }
    let (exits, _) = walk_block(&mut gb, &lines, 0, first, exit_bare(start), 0, !no_compact, m);
    let ghost w = w_walk(g1, l, 0, first, bare_exit(start), 0, !no_compact, m);
    assert(gs(gb) == w.0 && exits_view(exits@) == w.1);
    let end = gb.add_node(Shape::Terminator, String::from_str("End"), None, None, 0);
    assert(gs(gb) == g_add(w.0, Shape::Terminator, "End"@, None, None, 0).0);
    gb.connect(&exits, end, None);
    assert(gs(gb) == spec_python_built(l, !no_compact, m).0);
    assert(end == spec_python_built(l, !no_compact, m).1);
    assert(end == gb.nodes@.len());
    finish_graph(gb.nodes, gb.edges, start, end, 1)
}

/// Opening minus closing brackets in `s` from position `i`.
pub open spec fn bracket_balance(s: Seq<char>, i: int) -> int
    decreases s.len() - i,
{
    if i < 0 || i >= s.len() {
        0
    } else {
        (if is_open(s[i]) { 1int } else if is_close(s[i]) { -1int } else { 0int }) + bracket_balance(s, i + 1)
    }
}

/// Without quotes or backslashes, the bracket depth change is the number
/// of opening brackets minus the number of closing ones.
pub proof fn lemma_pdelta_plain(s: Seq<char>, i: int)
    requires 0 <= i, forall|k: int| i <= k < s.len() ==> s[k] != '\'' && s[k] != '"' && s[k] != '\\',
    ensures pdelta(s, i, false, false) == bracket_balance(s, i),
    decreases s.len() - i,
{
    if i < s.len() {
        lemma_pdelta_plain(s, i + 1);
    }
}

/// A line with no `=` from position `i` on has no top-level assignment
/// there.
pub proof fn lemma_hta_no_eq(s: Seq<char>, i: int, depth: int, sq: bool, dq: bool)
    requires 0 <= i, forall|k: int| i <= k < s.len() ==> s[k] != '=',
    ensures !hta(s, i, depth, sq, dq),
    decreases s.len() + 2 - i,
{
    if i < s.len() {
        if s[i] == '\\' && (sq || dq) {
            lemma_hta_no_eq(s, i + 2, depth, sq, dq);
        } else if s[i] == '\'' && !dq {
            lemma_hta_no_eq(s, i + 1, depth, !sq, dq);
        } else if s[i] == '"' && !sq {
            lemma_hta_no_eq(s, i + 1, depth, sq, !dq);
        } else if sq || dq {
            lemma_hta_no_eq(s, i + 1, depth, sq, dq);
        } else if is_open(s[i]) {
            lemma_hta_no_eq(s, i + 1, depth + 1, sq, dq);
        } else if is_close(s[i]) {
            lemma_hta_no_eq(s, i + 1, depth - 1, sq, dq);
        } else {
            lemma_hta_no_eq(s, i + 1, depth, sq, dq);
        }
    }
}

/// Normalizing quotes keeps the text's length.
pub proof fn lemma_nq_len(s: Seq<char>, i: int, insq: bool)
    requires 0 <= i <= s.len(),
    ensures nq(s, i, insq).len() == s.len() - i,
    decreases s.len() - i,
{
    if i < s.len() {
        if insq {
            if s[i] == '\\' && i + 1 < s.len() {
                lemma_nq_len(s, i + 2, true);
            } else if s[i] == '\'' {
                lemma_nq_len(s, i + 1, false);
            } else {
                lemma_nq_len(s, i + 1, true);
            }
        } else if s[i] == '\'' {
            lemma_nq_len(s, i + 1, true);
        } else if s[i] == '"' && dq_scan(s, i + 1, false, false).0 < s.len() {
            let (j, hs) = dq_scan(s, i + 1, false, false);
            lemma_dq_scan(s, i + 1, false, false);
            lemma_nq_len(s, j + 1, false);
        } else {
            lemma_nq_len(s, i + 1, false);
        }
    }
}

} // verus!
