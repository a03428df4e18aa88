//! The Octave/MATLAB source parser: splits lines into keyword tokens,
//! parses them into a syntax tree whose runs of plain statements are
//! summarized in words, and turns the tree into flowchart nodes and edges.
use vstd::prelude::*;
use crate::geometry::Shape;
use crate::python_flow::str_eq;
use crate::graph::{
    Node, Edge, Exit, NodeView, EdgeView, nodes_view, edges_view, exits_view, graph_wf, exits_ok,
    spec_connect_edges, connect_edges, push_node, FlowGraph, ExtractError, finish_graph,
    levelled_nodes, levelled_edges, spec_final_levels, levels_fit, GState, ExitV, g_connect, next_edges,
    grows, lemma_grows_trans, lemma_grows_refl,
    one_exit, bare_exit, exit_with, exit_bare, exit_owned, append_exits, lemma_exits_ok_mono, lemma_exits_ok_concat,
    assign_levels_bucketed, is_next, exits_among, lemma_among_concat, lemma_among_trans, lemma_next_edges_each,
    lemma_connect_has, lemma_append_keeps_edge, lemma_grows_keeps_edge,
};
use crate::text::{
    chars_of, string_of, spec_trim, trim_vec, seq_starts_with, starts_with_vec, slice_vec, append_chars,
    split_lines, lines_of, seq_contains, contains_vec, spec_join, join_vecs, spec_norm_ws, norm_ws, eq_vec,
    spec_decimal, decimal,
};

verus! {

broadcast use vstd::string::group_string_axioms;

/// What the `regex` crate finds for `pattern` in `hay`: `None` when the
/// pattern is invalid, else the capture groups of the first match, if any.
pub uninterp spec fn regex_captures_spec(pattern: Seq<char>, hay: Seq<char>) -> Option<Option<Seq<Option<Seq<char>>>>>;

/// What the `regex` crate finds for `pattern` in `hay` over all successive
/// non-overlapping matches: `None` when the pattern is invalid, else for
/// each match its first group and the text after the match.
pub uninterp spec fn regex_matches_spec(pattern: Seq<char>, hay: Seq<char>) -> Option<Seq<(Seq<char>, Seq<char>)>>;

/// Whether the `regex` crate finds `pattern` in `hay`; `None` when the
/// pattern is invalid.
pub uninterp spec fn regex_is_match_spec(pattern: Seq<char>, hay: Seq<char>) -> Option<bool>;

pub open spec fn groups_view(g: Vec<Option<String>>) -> Seq<Option<Seq<char>>> {
    g@.map_values(|o: Option<String>| match o { Some(s) => Some(s@), None => None })
}

/// Compiles `pattern` with `regex::Regex::new` and returns the capture
/// groups of its first match in `hay` (`Regex::captures`), each group's
/// text or `None`. Trusted: the result is named, not stated; it depends on
/// the pattern and the haystack alone. An invalid pattern gives `None`.
#[verifier::external_body]
fn regex_captures(pattern: &str, hay: &str) -> (r: Option<Option<Vec<Option<String>>>>)
    ensures
        regex_captures_spec(pattern@, hay@) == match r {
            None => None,
            Some(None) => Some(None),
            Some(Some(g)) => Some(Some(groups_view(g))),
        },
{
    match regex::Regex::new(pattern) {
        Err(_) => None,
        Ok(re) => Some(re.captures(hay).map(|c| c.iter().map(|m| m.map(|m| m.as_str().to_string())).collect())),
    }
}

/// Compiles `pattern` with `regex::Regex::new` and, for each successive
/// match in `hay` (`Regex::captures_iter`), returns the text of group 1
/// (empty if absent) and the text after the match. Trusted: the result is
/// named, not stated. An invalid pattern gives `None`.
#[verifier::external_body]
fn regex_matches(pattern: &str, hay: &str) -> (r: Option<Vec<(String, String)>>)
    ensures
        regex_matches_spec(pattern@, hay@) == match r {
            None => None,
            Some(v) => Some(v@.map_values(|x: (String, String)| (x.0@, x.1@))),
        },
{
    let re = match regex::Regex::new(pattern) {
        Err(_) => return None,
        Ok(re) => re,
    };
    Some(re.captures_iter(hay).map(|c| (
        c.get(1).map(|m| m.as_str().to_string()).unwrap_or_default(),
        hay[c.get(0).map(|m| m.end()).unwrap_or(0)..].to_string(),
    )).collect())
}

/// Compiles `pattern` with `regex::Regex::new` and tells whether it matches
/// somewhere in `hay` (`Regex::is_match`). Trusted: the result is named,
/// not stated. An invalid pattern gives `None`.
#[verifier::external_body]
fn regex_is_match(pattern: &str, hay: &str) -> (r: Option<bool>)
    ensures regex_is_match_spec(pattern@, hay@) == r,
{
    match regex::Regex::new(pattern) {
        Err(_) => None,
        Ok(re) => Some(re.is_match(hay)),
    }
}

/// `s` from position `i` up to a `%` comment outside quotes; inside a
/// quoted string `''` is an escaped quote.
pub open spec fn oc(s: Seq<char>, i: int, insq: bool) -> Seq<char>
    decreases s.len() - i,
{
    if i >= s.len() || i < 0 {
        Seq::empty()
    } else if s[i] == '\'' {
        if insq && i + 1 < s.len() && s[i + 1] == '\'' {
            seq!['\'', '\''] + oc(s, i + 2, insq)
        } else {
            seq!['\''] + oc(s, i + 1, !insq)
        }
    } else if s[i] == '%' && !insq {
        Seq::empty()
    } else {
        seq![s[i]] + oc(s, i + 1, insq)
    }
}

/// Removes a trailing `%` comment that is not inside a quoted string.
pub fn strip_comment(line: &str) -> (r: String)
    ensures r@ == oc(line@, 0, false),
{
    let chars = chars_of(line);
    let ghost s = line@;
    let mut out: Vec<char> = Vec::new();
    let mut in_single = false;
    let mut i: usize = 0;
    while i < chars.len()
        invariant
            chars@ == s, s == line@, i <= chars.len(),
            out@ + oc(s, i as int, in_single) == oc(s, 0, false),
        decreases chars.len() - i,
    {
        let ghost o0 = out@;
        let ghost (i0, q0) = (i as int, in_single);
        let ch = chars[i];
        if ch == '\'' {
            if in_single && i + 1 < chars.len() && chars[i + 1] == '\'' {
                out.push(ch);
                out.push(chars[i + 1]);
                i += 2;
            } else {
                in_single = !in_single;
                out.push(ch);
                i += 1;
            }
        } else if ch == '%' && !in_single {
            assert(oc(s, i as int, in_single) =~= Seq::<char>::empty());
            assert(out@ =~= out@ + oc(s, i as int, in_single));
            return string_of(&out);
        } else {
            out.push(ch);
            i += 1;
        }
        assert(o0 + oc(s, i0, q0) =~= out@ + oc(s, i as int, in_single));
    }
    assert(oc(s, i as int, in_single) =~= Seq::<char>::empty());
    assert(out@ =~= out@ + oc(s, i as int, in_single));
    string_of(&out)
}

/// The words of `s` joined by single spaces.
pub fn norm(s: &str) -> (r: String)
    ensures r@ == spec_norm_ws(s@),
{
    string_of(&norm_ws(&chars_of(s)))
}

/// The pattern of a `strcmp(name, 'value')` condition.
pub open spec fn strcmp_pattern() -> Seq<char> {
    "^strcmp\\(\\s*([A-Za-z_]\\w*)\\s*,\\s*'([^']+)'\\s*\\)$"@
}

/// The capture groups as plain values.
pub open spec fn caps_view(c: Option<Option<Vec<Option<String>>>>) -> Option<Option<Seq<Option<Seq<char>>>>> {
    match c {
        None => None,
        Some(None) => Some(None),
        Some(Some(g)) => Some(Some(groups_view(g))),
    }
}

/// The condition `ss` shown from what the `strcmp` pattern captured in it:
/// `x == v` when both the name and the value were captured, else `ss`.
pub open spec fn pretty_from(ss: Seq<char>, caps: Option<Option<Seq<Option<Seq<char>>>>>) -> Seq<char> {
    match caps {
        Some(Some(g)) => if g.len() >= 3 && g[1] is Some && g[2] is Some { g[1]->0 + " == "@ + g[2]->0 } else { ss },
        _ => ss,
    }
}

/// A condition with whitespace normalized; `strcmp(x, 'v')` is shown as
/// `x == v`.
pub open spec fn spec_pretty_cond(s: Seq<char>) -> Seq<char> {
    let ss = spec_norm_ws(s);
    pretty_from(ss, regex_captures_spec(strcmp_pattern(), ss))
}

pub fn pretty_cond(s: &str) -> (r: String)
    ensures r@ == spec_pretty_cond(s@),
{
    let ss = norm(s);
    let caps = regex_captures("^strcmp\\(\\s*([A-Za-z_]\\w*)\\s*,\\s*'([^']+)'\\s*\\)$", ss.as_str());
    pretty_from_captures(ss, caps)
}

/// Shows the condition `ss` from the groups the `strcmp` pattern captured
/// in it (`pretty_from`).
pub fn pretty_from_captures(ss: String, caps: Option<Option<Vec<Option<String>>>>) -> (r: String)
    ensures r@ == pretty_from(ss@, caps_view(caps)),
{
    match caps {
        Some(Some(g)) => {
            if g.len() >= 3 {
                match (&g[1], &g[2]) {
                    (Some(a), Some(b)) => {
                        let mut out = chars_of(a.as_str());
                        append_chars(&mut out, &chars_of(" == "));
                        append_chars(&mut out, &chars_of(b.as_str()));
                        return string_of(&out);
                    },
                    _ => {},
                }
            }
            ss
        },
        _ => ss,
    }
}

/// ASCII letters lowered (std `to_ascii_lowercase`).
pub open spec fn lower_char(c: char) -> char {
    if 'A' <= c && c <= 'Z' { ((c as u32) + 32) as char } else { c }
}

pub open spec fn spec_lower(s: Seq<char>) -> Seq<char> {
    s.map_values(|c: char| lower_char(c))
}

pub fn lower_vec(s: &Vec<char>) -> (r: Vec<char>)
    ensures r@ == spec_lower(s@),
{
    let mut r: Vec<char> = Vec::new();
    let mut i: usize = 0;
    while i < s.len()
        invariant i <= s.len(), r@ == spec_lower(s@.take(i as int)),
        decreases s.len() - i,
    {
        let c = s[i];
        let lc = if 'A' <= c && c <= 'Z' { ((c as u32) + 32) as u8 as char } else { c };
        assert(lc == lower_char(c)) by {
            if 'A' <= c && c <= 'Z' {
                assert((c as u32) + 32 < 256);
            }
        }
        r.push(lc);
        i += 1;
        assert(r@ =~= spec_lower(s@.take(i as int)));
    }
    assert(s@.take(s@.len() as int) =~= s@);
    r
}

/// For a line starting with keyword `kw` (any letter case) alone or
/// followed by a space: the trimmed rest of the line.
pub open spec fn spec_starts_kw(code: Seq<char>, kw: Seq<char>) -> Option<Seq<char>> {
    let lower = spec_lower(code);
    let k = spec_lower(kw);
    if lower == k {
        Some(Seq::empty())
    } else if seq_starts_with(lower, k + " "@) {
        Some(spec_trim(code.skip(kw.len() as int)))
    } else {
        None
    }
}

pub fn starts_kw(code: &str, kw: &str) -> (r: Option<String>)
    ensures
        match r { Some(s) => spec_starts_kw(code@, kw@) == Some(s@), None => spec_starts_kw(code@, kw@) is None },
{
    let c = chars_of(code);
    let k0 = chars_of(kw);
    let lower = lower_vec(&c);
    let k = lower_vec(&k0);
    if eq_vec(&lower, &k) {
        return Some(String::new());
    }
    let mut ks = slice_vec(&k, 0, k.len());
    ks.push(' ');
    proof { reveal_strlit(" "); }
    assert(ks@ =~= k@ + " "@);
    if starts_with_vec(&lower, &ks) {
        assert(k0@.len() <= c@.len());
        let rest = slice_vec(&c, k0.len(), c.len());
        assert(rest@ =~= code@.skip(kw@.len() as int));
        return Some(string_of(&trim_vec(&rest)));
    }
    None
}


/// The kind of a lexed line: one of the block keywords, or a plain
/// statement.
#[derive(PartialEq, Eq, Structural, Clone, Copy, Debug)]
pub enum TokKind {
    If,
    Elseif,
    Else,
    For,
    While,
    Switch,
    Case,
    Otherwise,
    End,
    Function,
    Stmt,
}

/// The keyword of a kind as written in the source.
pub open spec fn kind_name(k: TokKind) -> Seq<char> {
    match k {
        TokKind::If => "if"@,
        TokKind::Elseif => "elseif"@,
        TokKind::Else => "else"@,
        TokKind::For => "for"@,
        TokKind::While => "while"@,
        TokKind::Switch => "switch"@,
        TokKind::Case => "case"@,
        TokKind::Otherwise => "otherwise"@,
        TokKind::End => "end"@,
        TokKind::Function => "function"@,
        TokKind::Stmt => "stmt"@,
    }
}

pub fn kind_str(k: TokKind) -> (r: &'static str)
    ensures r@ == kind_name(k),
{
    match k {
        TokKind::If => "if",
        TokKind::Elseif => "elseif",
        TokKind::Else => "else",
        TokKind::For => "for",
        TokKind::While => "while",
        TokKind::Switch => "switch",
        TokKind::Case => "case",
        TokKind::Otherwise => "otherwise",
        TokKind::End => "end",
        TokKind::Function => "function",
        TokKind::Stmt => "stmt",
    }
}

/// The keywords in the order in which a line is tried against them.
pub open spec fn kw_at(j: int) -> TokKind {
    if j == 0 { TokKind::If } else if j == 1 { TokKind::Elseif } else if j == 2 { TokKind::Else }
    else if j == 3 { TokKind::For } else if j == 4 { TokKind::While } else if j == 5 { TokKind::Switch }
    else if j == 6 { TokKind::Case } else if j == 7 { TokKind::Otherwise } else if j == 8 { TokKind::End }
    else { TokKind::Function }
}

fn kw_at_exec(j: usize) -> (k: TokKind)
    requires j < 10,
    ensures k == kw_at(j as int),
{
    if j == 0 { TokKind::If } else if j == 1 { TokKind::Elseif } else if j == 2 { TokKind::Else }
    else if j == 3 { TokKind::For } else if j == 4 { TokKind::While } else if j == 5 { TokKind::Switch }
    else if j == 6 { TokKind::Case } else if j == 7 { TokKind::Otherwise } else if j == 8 { TokKind::End }
    else { TokKind::Function }
}

/// A lexed source line: its kind, its text (the condition or header after
/// the keyword, or the whole statement) and its 1-based line number.
#[derive(Debug)]
pub struct Tok {
    pub kind: TokKind,
    pub text: String,
    pub line: usize,
}

pub ghost struct TokV {
    pub kind: TokKind,
    pub text: Seq<char>,
    pub line: usize,
}

impl View for Tok {
    type V = TokV;

    open spec fn view(&self) -> TokV {
        TokV { kind: self.kind, text: self.text@, line: self.line }
    }
}

pub open spec fn toks_view(v: Seq<Tok>) -> Seq<TokV> {
    v.map_values(|t: Tok| t@)
}

/// The first keyword, from position `j` of the keyword order on, that the
/// code line starts with, and the rest of the line after it.
pub open spec fn first_kw(code: Seq<char>, j: int) -> Option<(TokKind, Seq<char>)>
    decreases 10 - j,
{
    if j < 0 || j >= 10 {
        None
    } else {
        match spec_starts_kw(code, kind_name(kw_at(j))) {
            Some(rest) => Some((kw_at(j), rest)),
            None => first_kw(code, j + 1),
        }
    }
}

/// The token of a raw source line numbered `ln`, if the line holds code:
/// comments are cut and whitespace normalized; `if`/`elseif` conditions
/// are shown with `pretty_cond`.
pub open spec fn lex_line(raw: Seq<char>, ln: usize) -> Option<TokV> {
    let code = spec_trim(oc(raw, 0, false));
    if code.len() == 0 {
        None
    } else {
        match first_kw(code, 0) {
            Some((k, rest)) => Some(TokV {
                kind: k,
                text: if k == TokKind::If || k == TokKind::Elseif { spec_pretty_cond(rest) } else { spec_norm_ws(rest) },
                line: ln,
            }),
            None => Some(TokV { kind: TokKind::Stmt, text: spec_norm_ws(code), line: ln }),
        }
    }
}

/// The tokens of the first `k` lines.
pub open spec fn spec_lex(ls: Seq<Seq<char>>, k: int) -> Seq<TokV>
    decreases k,
{
    if k <= 0 || k > ls.len() {
        Seq::empty()
    } else {
        match lex_line(ls[k - 1], k as usize) {
            Some(t) => spec_lex(ls, k - 1).push(t),
            None => spec_lex(ls, k - 1),
        }
    }
}

pub open spec fn strs_view(v: Seq<String>) -> Seq<Seq<char>> {
    v.map_values(|x: String| x@)
}

fn lex_one(raw: &str, ln: usize) -> (r: Option<Tok>)
    ensures
        match r { Some(t) => lex_line(raw@, ln) == Some(t@), None => lex_line(raw@, ln) is None },
{
    let code_s = strip_comment(raw);
    let code_v = trim_vec(&chars_of(code_s.as_str()));
    if code_v.len() == 0 {
        return None;
    }
    let code = string_of(&code_v);
    let mut j: usize = 0;
    while j < 10
        invariant j <= 10, code@ == spec_trim(oc(raw@, 0, false)), code@.len() > 0, first_kw(code@, 0) == first_kw(code@, j as int),
        decreases 10 - j,
    {
        let k = kw_at_exec(j);
        match starts_kw(code.as_str(), kind_str(k)) {
            Some(rest) => {
                assert(first_kw(code@, j as int) == Some((k, rest@)));
                let text = if k == TokKind::If || k == TokKind::Elseif { pretty_cond(rest.as_str()) } else { norm(rest.as_str()) };
                return Some(Tok { kind: k, text, line: ln });
            },
            None => {},
        }
        j += 1;
    }
    Some(Tok { kind: TokKind::Stmt, text: norm(code.as_str()), line: ln })
}

/// Lexes source lines (see `lex_line`); line numbers start at 1.
pub fn lex(lines: &[String]) -> (toks: Vec<Tok>)
    requires lines@.len() < usize::MAX,
    ensures toks_view(toks@) == spec_lex(strs_view(lines@), lines@.len() as int),
{
    let ghost ls = strs_view(lines@);
    let mut toks: Vec<Tok> = Vec::new();
    let mut i: usize = 0;
    while i < lines.len()
        invariant
            i <= lines@.len(), lines@.len() < usize::MAX, ls == strs_view(lines@),
            toks_view(toks@) == spec_lex(ls, i as int),
        decreases lines@.len() - i,
    {
        assert(ls[i as int] == lines@[i as int]@);
        let ghost t0 = toks_view(toks@);
        match lex_one(lines[i].as_str(), i + 1) {
            Some(t) => {
                toks.push(t);
                assert(toks_view(toks@) =~= t0.push(toks@.last()@));
            },
            None => {},
        }
        i += 1;
    }
    toks
}


/// The pattern of an assignment target: a name followed by `=`.
pub open spec fn assign_pattern() -> Seq<char> {
    "\\b([A-Za-z_]\\w*)\\s*="@
}

/// The names of the first `k` matches, leaving out those followed by a
/// second `=` (a comparison `==`).
pub open spec fn match_names(ms: Seq<(Seq<char>, Seq<char>)>, k: int) -> Seq<Seq<char>>
    decreases k,
{
    if k <= 0 || k > ms.len() {
        Seq::empty()
    } else {
        let p = match_names(ms, k - 1);
        if ms[k - 1].1.len() > 0 && ms[k - 1].1[0] == '=' { p } else { p.push(ms[k - 1].0) }
    }
}

/// The names assigned on one line, in order of appearance.
pub open spec fn line_assigns(ln: Seq<char>) -> Seq<Seq<char>> {
    match regex_matches_spec(assign_pattern(), ln) {
        Some(ms) => match_names(ms, ms.len() as int),
        None => Seq::empty(),
    }
}

/// `base` followed by those of the first `k` items that are not in it yet.
pub open spec fn add_unique(base: Seq<Seq<char>>, items: Seq<Seq<char>>, k: int) -> Seq<Seq<char>>
    decreases k,
{
    if k <= 0 || k > items.len() {
        base
    } else {
        let b = add_unique(base, items, k - 1);
        if b.contains(items[k - 1]) { b } else { b.push(items[k - 1]) }
    }
}

/// The distinct names assigned in the first `k` lines, in order of first
/// assignment.
pub open spec fn assigned_upto(lines: Seq<Seq<char>>, k: int) -> Seq<Seq<char>>
    decreases k,
{
    if k <= 0 || k > lines.len() {
        Seq::empty()
    } else {
        let l = line_assigns(lines[k - 1]);
        add_unique(assigned_upto(lines, k - 1), l, l.len() as int)
    }
}

pub open spec fn spec_assigned(lines: Seq<Seq<char>>) -> Seq<Seq<char>> {
    assigned_upto(lines, lines.len() as int)
}

fn contains_string(v: &Vec<String>, x: &str) -> (r: bool)
    ensures r == strs_view(v@).contains(x@),
{
    let ghost sv = strs_view(v@);
    let mut k: usize = 0;
    while k < v.len()
        invariant k <= v@.len(), sv == strs_view(v@), forall|j: int| 0 <= j < k ==> sv[j] != x@,
        decreases v@.len() - k,
    {
        if str_eq(v[k].as_str(), x) {
            assert(sv[k as int] == x@);
            return true;
        }
        k += 1;
    }
    false
}

fn push_unique(v: &mut Vec<String>, x: String)
    ensures
        strs_view(final(v)@) == if strs_view(old(v)@).contains(x@) { strs_view(old(v)@) } else { strs_view(old(v)@).push(x@) },
{
    if !contains_string(v, x.as_str()) {
        let ghost v0 = strs_view(v@);
        v.push(x);
        assert(strs_view(v@) =~= v0.push(x@));
    }
}

pub open spec fn matches_view(ms: Seq<(String, String)>) -> Seq<(Seq<char>, Seq<char>)> {
    ms.map_values(|x: (String, String)| (x.0@, x.1@))
}

/// The assigned names among the matches of the assignment pattern: each
/// match's name, unless the text after it starts with `=` (a comparison).
pub fn names_from_matches(ms: &[(String, String)]) -> (r: Vec<String>)
    ensures strs_view(r@) == match_names(matches_view(ms@), ms@.len() as int),
{
    let ghost msv = matches_view(ms@);
    let mut names_v: Vec<String> = Vec::new();
    let mut j: usize = 0;
    while j < ms.len()
        invariant
            j <= ms@.len(), msv == matches_view(ms@),
            strs_view(names_v@) == match_names(msv, j as int),
        decreases ms@.len() - j,
    {
        assert(msv[j as int] == (ms@[j as int].0@, ms@[j as int].1@));
        let rest = chars_of(ms[j].1.as_str());
        if !(rest.len() > 0 && rest[0] == '=') {
            let ghost nv0 = strs_view(names_v@);
            names_v.push(ms[j].0.clone());
            assert(strs_view(names_v@) =~= nv0.push(msv[j as int].0));
        }
        j += 1;
    }
    names_v
}

/// Appends each of `names` not yet in `out`, in order (`add_unique`).
pub fn add_names(out: &mut Vec<String>, names: &[String])
    ensures strs_view(final(out)@) == add_unique(strs_view(old(out)@), strs_view(names@), names@.len() as int),
{
    let ghost base = strs_view(out@);
    let ghost nv = strs_view(names@);
    let mut k: usize = 0;
    while k < names.len()
        invariant
            k <= names@.len(), nv == strs_view(names@),
            strs_view(out@) == add_unique(base, nv, k as int),
        decreases names@.len() - k,
    {
        assert(nv[k as int] == names@[k as int]@);
        push_unique(out, names[k].clone());
        k += 1;
    }
}

/// The distinct names assigned in `lines` (`name = ...`, not `name == ...`),
/// in order of first assignment.
pub fn extract_assigned_vars(lines: &[String]) -> (r: Vec<String>)
    ensures strs_view(r@) == spec_assigned(strs_view(lines@)),
{
    let ghost ls = strs_view(lines@);
    let mut out: Vec<String> = Vec::new();
    let mut i: usize = 0;
    assert(strs_view(out@) =~= assigned_upto(ls, 0));
    while i < lines.len()
        invariant i <= lines@.len(), ls == strs_view(lines@), strs_view(out@) == assigned_upto(ls, i as int),
        decreases lines@.len() - i,
    {
        let ln = lines[i].as_str();
        assert(ls[i as int] == ln@);
        match regex_matches("\\b([A-Za-z_]\\w*)\\s*=", ln) {
            Some(ms) => {
                let names_v = names_from_matches(&ms);
                add_names(&mut out, &names_v);
            },
            None => {
                assert(line_assigns(ls[i as int]) =~= Seq::<Seq<char>>::empty());
            },
        }
        i += 1;
    }
    out
}

/// Whether pattern `pat` matches in one of the first `k` lines.
pub open spec fn any_line_matches(pat: Seq<char>, lines: Seq<Seq<char>>, k: int) -> bool
    decreases k,
{
    if k <= 0 || k > lines.len() {
        false
    } else {
        any_line_matches(pat, lines, k - 1) || regex_is_match_spec(pat, lines[k - 1]) == Some(true)
    }
}

/// Whether the regular expression `pat` matches somewhere in one of the
/// lines.
pub fn has_word(lines: &[String], pat: &str) -> (r: bool)
    ensures r == any_line_matches(pat@, strs_view(lines@), lines@.len() as int),
{
    let ghost ls = strs_view(lines@);
    let mut i: usize = 0;
    while i < lines.len()
        invariant i <= lines@.len(), ls == strs_view(lines@), !any_line_matches(pat@, ls, i as int),
        decreases lines@.len() - i,
    {
        assert(ls[i as int] == lines@[i as int]@);
        match regex_is_match(pat, lines[i].as_str()) {
            Some(true) => {
                proof { lemma_any_line_matches_grows(pat@, ls, i + 1, lines@.len() as int); }
                return true;
            },
            _ => {},
        }
        i += 1;
    }
    false
}

proof fn lemma_any_line_matches_grows(pat: Seq<char>, lines: Seq<Seq<char>>, a: int, b: int)
    requires 0 <= a <= b <= lines.len(), any_line_matches(pat, lines, a),
    ensures any_line_matches(pat, lines, b),
    decreases b - a,
{
    if a < b {
        lemma_any_line_matches_grows(pat, lines, a, b - 1);
    }
}

pub open spec fn plot_pattern() -> Seq<char> {
    "(?i)\\b(figure|plot|legend|title|xlabel|ylabel|grid|yline)\\b"@
}

pub open spec fn print_pattern() -> Seq<char> {
    "(?i)\\b(fprintf|disp|error)\\b"@
}

pub open spec fn math_pattern() -> Seq<char> {
    "(?i)\\b(sqrt|exp|sin|cos)\\b"@
}

/// Names treated as constants: a few fixed ones and those ending in `_base`.
pub open spec fn is_const_name(v: Seq<char>) -> bool {
    v == "g"@ || v == "tzero"@ || v == "NumIt"@ || v == "Numcyc"@ || v == "tfinish"@
        || (v.len() >= 5 && v.skip(v.len() - 5) == "_base"@)
}

pub open spec fn any_const(a: Seq<Seq<char>>) -> bool {
    exists|k: int| 0 <= k < a.len() && is_const_name(#[trigger] a[k])
}

pub open spec fn any_value(a: Seq<Seq<char>>) -> bool {
    exists|k: int| 0 <= k < a.len() && !is_const_name(#[trigger] a[k])
}

pub open spec fn any_new(a: Seq<Seq<char>>, seen: Seq<Seq<char>>) -> bool {
    exists|k: int| 0 <= k < a.len() && !seen.contains(#[trigger] a[k])
}

pub open spec fn any_old(a: Seq<Seq<char>>, seen: Seq<Seq<char>>) -> bool {
    exists|k: int| 0 <= k < a.len() && seen.contains(#[trigger] a[k])
}

pub open spec fn spec_domain(a: Seq<Seq<char>>, has_math: bool) -> Seq<char> {
    if has_math {
        "Computed values"@
    } else if any_const(a) && !any_value(a) {
        "Constants"@
    } else if any_value(a) && !any_const(a) {
        "Values"@
    } else {
        "Values/constants"@
    }
}

pub open spec fn spec_action(a: Seq<Seq<char>>, seen: Seq<Seq<char>>) -> Seq<char> {
    if any_new(a, seen) && !any_old(a, seen) {
        "set"@
    } else if any_old(a, seen) && !any_new(a, seen) {
        "updated"@
    } else {
        "set & updated"@
    }
}

/// The first eight names joined by `, `, with a count of the rest.
pub open spec fn spec_preview(a: Seq<Seq<char>>) -> Seq<char> {
    if a.len() > 8 {
        spec_join(a.take(8), ", "@) + ", ... (+"@ + spec_decimal((a.len() - 8) as nat) + ")"@
    } else {
        spec_join(a, ", "@)
    }
}

/// The summary text from the assigned names `a` and whether the run
/// plots, prints or computes, with the names known to be set afterwards
/// (`seen` with `a` added, unless the run is summarized as plotting or
/// messages).
pub open spec fn summary_of(a: Seq<Seq<char>>, has_plot: bool, has_print: bool, has_math: bool, seen: Seq<Seq<char>>)
    -> (Seq<char>, Seq<Seq<char>>) {
    if has_plot {
        ("Plots/figure settings updated"@, seen)
    } else if has_print && a.len() == 0 {
        ("Messages/validation handled"@, seen)
    } else if a.len() > 0 {
        (spec_domain(a, has_math) + " "@ + spec_action(a, seen) + ": "@ + spec_preview(a), add_unique(seen, a, a.len() as int))
    } else {
        ("Processing step"@, seen)
    }
}

/// The summary text of a run of plain statements and the names known to
/// be set afterwards (`summary_of` its assignments and word matches).
pub open spec fn spec_summary(lines: Seq<Seq<char>>, seen: Seq<Seq<char>>) -> (Seq<char>, Seq<Seq<char>>) {
    let n = lines.len() as int;
    summary_of(spec_assigned(lines), any_line_matches(plot_pattern(), lines, n),
        any_line_matches(print_pattern(), lines, n), any_line_matches(math_pattern(), lines, n), seen)
}

fn is_const_name_exec(v: &str) -> (r: bool)
    ensures r == is_const_name(v@),
{
    let c = chars_of(v);
    let base = chars_of("_base");
    let n = c.len();
    let ends = n >= 5 && eq_vec(&slice_vec(&c, n - 5, n), &base);
    proof {
        if n >= 5 { assert(c@.subrange(n - 5, n as int) =~= v@.skip(v@.len() - 5)); }
    }
    str_eq(v, "g") || str_eq(v, "tzero") || str_eq(v, "NumIt") || str_eq(v, "Numcyc") || str_eq(v, "tfinish") || ends
}

fn join_strings(a: &Vec<String>, take: usize, sep: &str) -> (r: Vec<char>)
    requires take <= a@.len(),
    ensures r@ == spec_join(strs_view(a@).take(take as int), sep@),
{
    let mut parts: Vec<Vec<char>> = Vec::new();
    let mut k: usize = 0;
    while k < take
        invariant
            k <= take, take <= a@.len(),
            parts@.map_values(|v: Vec<char>| v@) == strs_view(a@).take(k as int),
        decreases take - k,
    {
        let ghost p0 = parts@.map_values(|v: Vec<char>| v@);
        assert(strs_view(a@)[k as int] == a@[k as int]@);
        parts.push(chars_of(a[k].as_str()));
        assert(parts@.map_values(|v: Vec<char>| v@) =~= p0.push(a@[k as int]@));
        k += 1;
        assert(parts@.map_values(|v: Vec<char>| v@) =~= strs_view(a@).take(k as int));
    }
    join_vecs(&parts, &chars_of(sep))
}

/// Summarizes a run of plain statements (see `spec_summary`) and records
/// the names it sets in `seen_vars`.
pub fn summarize_process_lines(lines: &[String], seen_vars: &mut Vec<String>) -> (r: String)
    ensures (r@, strs_view(final(seen_vars)@)) == spec_summary(strs_view(lines@), strs_view(old(seen_vars)@)),
{
    let assigned = extract_assigned_vars(lines);
    let has_plot = has_word(lines, "(?i)\\b(figure|plot|legend|title|xlabel|ylabel|grid|yline)\\b");
    let has_print = has_word(lines, "(?i)\\b(fprintf|disp|error)\\b");
    let has_math = has_word(lines, "(?i)\\b(sqrt|exp|sin|cos)\\b");
    summary_from(&assigned, has_plot, has_print, has_math, seen_vars)
}

/// The summary of a run from its assigned names and whether it plots,
/// prints or computes (`summary_of`); records the names it sets.
pub fn summary_from(assigned: &Vec<String>, has_plot: bool, has_print: bool, has_math: bool, seen_vars: &mut Vec<String>) -> (r: String)
    ensures (r@, strs_view(final(seen_vars)@)) == summary_of(strs_view(assigned@), has_plot, has_print, has_math, strs_view(old(seen_vars)@)),
{
    let ghost seen0 = strs_view(seen_vars@);
    let ghost a = strs_view(assigned@);
    let has_assign = assigned.len() > 0;
    if has_plot {
        return String::from_str("Plots/figure settings updated");
    }
    if has_print && !has_assign {
        return String::from_str("Messages/validation handled");
    }
    if has_assign {
        let mut consts = false;
        let mut values = false;
        let mut newly = false;
        let mut updated = false;
        let mut k: usize = 0;
        while k < assigned.len()
            invariant
                k <= assigned@.len(), a == strs_view(assigned@), seen0 == strs_view(seen_vars@),
                consts == (exists|j: int| 0 <= j < k && is_const_name(#[trigger] a[j])),
                values == (exists|j: int| 0 <= j < k && !is_const_name(#[trigger] a[j])),
                newly == (exists|j: int| 0 <= j < k && !seen0.contains(#[trigger] a[j])),
                updated == (exists|j: int| 0 <= j < k && seen0.contains(#[trigger] a[j])),
            decreases assigned@.len() - k,
        {
            assert(a[k as int] == assigned@[k as int]@);
            let v = assigned[k].as_str();
            if is_const_name_exec(v) { consts = true; } else { values = true; }
            if contains_string(seen_vars, v) { updated = true; } else { newly = true; }
            k += 1;
        }
        let action = if newly && !updated { "set" } else if updated && !newly { "updated" } else { "set & updated" };
        assert(action@ == spec_action(a, seen0));
        let domain = if has_math { "Computed values" } else if consts && !values { "Constants" }
            else if values && !consts { "Values" } else { "Values/constants" };
        assert(domain@ == spec_domain(a, has_math));
        let n = assigned.len();
        let mut preview = join_strings(&assigned, if n > 8 { 8 } else { n }, ", ");
        if n > 8 {
            append_chars(&mut preview, &chars_of(", ... (+"));
            append_chars(&mut preview, &decimal(n - 8));
            append_chars(&mut preview, &chars_of(")"));
        } else {
            assert(a.take(n as int) =~= a);
        }
        let mut text = chars_of(domain);
        append_chars(&mut text, &chars_of(" "));
        append_chars(&mut text, &chars_of(action));
        append_chars(&mut text, &chars_of(": "));
        append_chars(&mut text, &preview);
        let mut k2: usize = 0;
        while k2 < assigned.len()
            invariant
                k2 <= assigned@.len(), a == strs_view(assigned@),
                strs_view(seen_vars@) == add_unique(seen0, a, k2 as int),
            decreases assigned@.len() - k2,
        {
            assert(a[k2 as int] == assigned@[k2 as int]@);
            push_unique(seen_vars, assigned[k2].clone());
            k2 += 1;
        }
        proof {
            assert(text@ =~= spec_domain(a, has_math) + " "@ + spec_action(a, seen0) + ": "@ + spec_preview(a));
        }
        return string_of(&text);
    }
    String::from_str("Processing step")
}


/// One arm of an `if` chain or a `switch`: its condition (or case value),
/// its statements and the line it starts on.
#[derive(Debug)]
pub struct IfBranch {
    pub cond: String,
    pub body: Vec<AstNode>,
    pub line: usize,
}

/// A statement of the parsed source.
#[derive(Debug)]
pub enum AstNode {
    Process { text: String, line_start: usize, line_end: usize },
    If {
        cond: String,
        line_start: usize,
        line_end: usize,
        branches: Vec<IfBranch>,
        else_body: Option<Vec<AstNode>>,
    },
    Loop { loop_kind: TokKind, header: String, line_start: usize, line_end: usize, body: Vec<AstNode> },
    Switch {
        expr: String,
        line_start: usize,
        line_end: usize,
        cases: Vec<IfBranch>,
        otherwise: Option<Vec<AstNode>>,
    },
    Decision { text: String, line_start: usize, line_end: usize },
}

pub type BrV = (Seq<char>, Seq<AstV>, usize);

pub ghost enum AstV {
    Process { text: Seq<char>, line_start: usize, line_end: usize },
    If { cond: Seq<char>, line_start: usize, line_end: usize, branches: Seq<BrV>, else_body: Option<Seq<AstV>> },
    Loop { loop_kind: TokKind, header: Seq<char>, line_start: usize, line_end: usize, body: Seq<AstV> },
    Switch { expr: Seq<char>, line_start: usize, line_end: usize, cases: Seq<BrV>, otherwise: Option<Seq<AstV>> },
    Decision { text: Seq<char>, line_start: usize, line_end: usize },
}

pub open spec fn ast_v(a: AstNode) -> AstV
    decreases a,
{
    match a {
        AstNode::Process { text, line_start, line_end } => AstV::Process { text: text@, line_start, line_end },
        AstNode::If { cond, line_start, line_end, branches, else_body } => AstV::If {
            cond: cond@, line_start, line_end,
            branches: branches_v(branches@, branches@.len() as int),
            else_body: match else_body { Some(d) => Some(asts_v(d@, d@.len() as int)), None => None },
        },
        AstNode::Loop { loop_kind, header, line_start, line_end, body } =>
            AstV::Loop { loop_kind, header: header@, line_start, line_end, body: asts_v(body@, body@.len() as int) },
        AstNode::Switch { expr, line_start, line_end, cases, otherwise } => AstV::Switch {
            expr: expr@, line_start, line_end,
            cases: branches_v(cases@, cases@.len() as int),
            otherwise: match otherwise { Some(d) => Some(asts_v(d@, d@.len() as int)), None => None },
        },
        AstNode::Decision { text, line_start, line_end } => AstV::Decision { text: text@, line_start, line_end },
    }
}

pub open spec fn asts_v(s: Seq<AstNode>, k: int) -> Seq<AstV>
    decreases s, k,
{
    if k <= 0 || k > s.len() { Seq::empty() } else { asts_v(s, k - 1).push(ast_v(s[k - 1])) }
}

pub open spec fn branches_v(s: Seq<IfBranch>, k: int) -> Seq<BrV>
    decreases s, k,
{
    if k <= 0 || k > s.len() {
        Seq::empty()
    } else {
        branches_v(s, k - 1).push((s[k - 1].cond@, asts_v(s[k - 1].body@, s[k - 1].body@.len() as int), s[k - 1].line))
    }
}

pub open spec fn list_v(v: Vec<AstNode>) -> Seq<AstV> {
    asts_v(v@, v@.len() as int)
}

pub open spec fn br_v(b: Vec<IfBranch>) -> Seq<BrV> {
    branches_v(b@, b@.len() as int)
}

pub open spec fn opt_list_v(d: Option<Vec<AstNode>>) -> Option<Seq<AstV>> {
    match d { Some(v) => Some(list_v(v)), None => None }
}

proof fn lemma_asts_v_prefix(a: Seq<AstNode>, b: Seq<AstNode>, k: int)
    requires 0 <= k <= a.len(), k <= b.len(), forall|j: int| 0 <= j < k ==> a[j] == b[j],
    ensures asts_v(a, k) == asts_v(b, k),
    decreases k,
{
    if k > 0 {
        lemma_asts_v_prefix(a, b, k - 1);
    }
}

proof fn lemma_branches_v_prefix(a: Seq<IfBranch>, b: Seq<IfBranch>, k: int)
    requires 0 <= k <= a.len(), k <= b.len(), forall|j: int| 0 <= j < k ==> a[j] == b[j],
    ensures branches_v(a, k) == branches_v(b, k),
    decreases k,
{
    if k > 0 {
        lemma_branches_v_prefix(a, b, k - 1);
    }
}

fn push_ast(out: &mut Vec<AstNode>, node: AstNode)
    ensures list_v(*final(out)) == list_v(*old(out)).push(ast_v(node)),
{
    let ghost o0 = out@;
    out.push(node);
    proof { lemma_asts_v_prefix(out@, o0, o0.len() as int); }
}

fn push_branch(out: &mut Vec<IfBranch>, b: IfBranch)
    ensures br_v(*final(out)) == br_v(*old(out)).push((b.cond@, list_v(b.body), b.line)),
{
    let ghost o0 = out@;
    out.push(b);
    proof { lemma_branches_v_prefix(out@, o0, o0.len() as int); }
}

/// A run of buffered plain statements turned into one process node whose
/// text summarizes them (see `spec_summary`), spanning their lines.
pub open spec fn flush(out: Seq<AstV>, bt: Seq<Seq<char>>, bl: Seq<usize>, seen: Seq<Seq<char>>) -> (Seq<AstV>, Seq<Seq<char>>) {
    if bt.len() == 0 {
        (out, seen)
    } else {
        let r = spec_summary(bt, seen);
        (out.push(AstV::Process { text: r.0, line_start: bl[0], line_end: bl.last() }), r.1)
    }
}

/// Whether a nested parse ending at `x` moved past token `i`.
pub open spec fn adv(x: int, i: int, len: nat) -> bool {
    i < x <= len
}

pub open spec fn if_stops() -> Seq<TokKind> {
    seq![TokKind::Elseif, TokKind::Else, TokKind::End]
}

pub open spec fn end_stops() -> Seq<TokKind> {
    seq![TokKind::End]
}

pub open spec fn case_stops() -> Seq<TokKind> {
    seq![TokKind::Case, TokKind::Otherwise, TokKind::End]
}

pub type PRes = (Seq<AstV>, int, Seq<Seq<char>>);

/// The statements from token `i` up to the end or to a token whose kind is
/// in `stops`, appended to `out`; plain statements are buffered in `bt`/`bl`
/// and flushed as one summarized process node. Also the index reached and
/// the names known to be set.
pub open spec fn pb(t: Seq<TokV>, i: int, stops: Seq<TokKind>, out: Seq<AstV>, bt: Seq<Seq<char>>, bl: Seq<usize>,
    seen: Seq<Seq<char>>) -> PRes
    decreases t.len() - i, 3int,
{
    if i < 0 || i >= t.len() || stops.contains(t[i].kind) {
        let f = flush(out, bt, bl, seen);
        (f.0, i, f.1)
    } else if t[i].kind == TokKind::Stmt {
        pb(t, i + 1, stops, out, bt.push(t[i].text), bl.push(t[i].line), seen)
    } else {
        let f = flush(out, bt, bl, seen);
        let k = t[i].kind;
        if k == TokKind::If || k == TokKind::For || k == TokKind::While || k == TokKind::Switch {
            let r = if k == TokKind::If { pif(t, i, f.1) } else if k == TokKind::Switch { pswitch(t, i, f.1) } else { ploop(t, i, f.1) };
            if adv(r.1, i, t.len()) {
                pb(t, r.1, stops, f.0.push(r.0), Seq::empty(), Seq::empty(), r.2)
            } else {
                (f.0.push(r.0), r.1, r.2)
            }
        } else {
            let node = AstV::Process { text: spec_trim(kind_name(k) + " "@ + t[i].text), line_start: t[i].line, line_end: t[i].line };
            pb(t, i + 1, stops, f.0.push(node), Seq::empty(), Seq::empty(), f.1)
        }
    }
}

proof fn lemma_take_trans(res: Seq<AstV>, a: Seq<AstV>, out: Seq<AstV>)
    requires out.len() <= a.len() <= res.len(), res.take(a.len() as int) == a, a.take(out.len() as int) == out,
    ensures res.take(out.len() as int) == out,
{
    assert(res.take(out.len() as int) =~= res.take(a.len() as int).take(out.len() as int));
}

/// Parsing a block only appends: the statements parsed before stay in
/// front, in their order.
pub proof fn lemma_pb_appends(t: Seq<TokV>, i: int, stops: Seq<TokKind>, out: Seq<AstV>, bt: Seq<Seq<char>>,
    bl: Seq<usize>, seen: Seq<Seq<char>>)
    ensures
        out.len() <= pb(t, i, stops, out, bt, bl, seen).0.len(),
        pb(t, i, stops, out, bt, bl, seen).0.take(out.len() as int) == out,
    decreases t.len() - i,
{
    let f = flush(out, bt, bl, seen);
    assert(out.len() <= f.0.len() && f.0.take(out.len() as int) =~= out);
    if i < 0 || i >= t.len() || stops.contains(t[i].kind) {
    } else if t[i].kind == TokKind::Stmt {
        lemma_pb_appends(t, i + 1, stops, out, bt.push(t[i].text), bl.push(t[i].line), seen);
    } else {
        let k = t[i].kind;
        let (x, j, sn) = if k == TokKind::If || k == TokKind::For || k == TokKind::While || k == TokKind::Switch {
            if k == TokKind::If { pif(t, i, f.1) } else if k == TokKind::Switch { pswitch(t, i, f.1) } else { ploop(t, i, f.1) }
        } else {
            (AstV::Process { text: spec_trim(kind_name(k) + " "@ + t[i].text), line_start: t[i].line, line_end: t[i].line }, i + 1, f.1)
        };
        let a = f.0.push(x);
        assert(a.take(f.0.len() as int) =~= f.0);
        assert(a.take(a.len() as int) =~= a);
        if adv(j, i, t.len()) {
            lemma_pb_appends(t, j, stops, a, Seq::empty(), Seq::empty(), sn);
            let res = pb(t, j, stops, a, Seq::empty(), Seq::empty(), sn).0;
            lemma_take_trans(res, a, f.0);
            lemma_take_trans(res, f.0, out);
        } else {
            lemma_take_trans(a, f.0, out);
        }
    }
}

/// The `if` node whose header is token `ti`, with branches `br`, else part
/// `eb` and closing at token `k` when that is an `end`.
pub open spec fn if_end(t: Seq<TokV>, k: int, ti: TokV, br: Seq<BrV>, eb: Option<Seq<AstV>>, seen: Seq<Seq<char>>) -> (AstV, int, Seq<Seq<char>>) {
    if 0 <= k < t.len() && t[k].kind == TokKind::End {
        (AstV::If { cond: ti.text, line_start: ti.line, line_end: t[k].line, branches: br, else_body: eb }, k + 1, seen)
    } else {
        let le = if br.len() > 0 { br.last().2 } else { ti.line };
        (AstV::If { cond: ti.text, line_start: ti.line, line_end: le, branches: br, else_body: eb }, k, seen)
    }
}

/// An `if` chain whose header is token `i`.
pub open spec fn pif(t: Seq<TokV>, i: int, seen: Seq<Seq<char>>) -> (AstV, int, Seq<Seq<char>>)
    decreases t.len() - i, 2int,
{
    if i < 0 || i >= t.len() {
        (AstV::Decision { text: Seq::empty(), line_start: 0, line_end: 0 }, i, seen)
    } else {
        let ti = t[i];
        let r = pb(t, i + 1, if_stops(), Seq::empty(), Seq::empty(), Seq::empty(), seen);
        let br = seq![(ti.text, r.0, ti.line)];
        if adv(r.1, i, t.len()) { pif_rest(t, r.1, ti, br, r.2) } else { if_end(t, r.1, ti, br, None, r.2) }
    }
}

/// The `elseif` arms, the `else` part and the closing `end` of an `if`
/// chain, from token `k` on.
pub open spec fn pif_rest(t: Seq<TokV>, k: int, ti: TokV, br: Seq<BrV>, seen: Seq<Seq<char>>) -> (AstV, int, Seq<Seq<char>>)
    decreases t.len() - k, 1int,
{
    if 0 <= k < t.len() && t[k].kind == TokKind::Elseif {
        let r = pb(t, k + 1, if_stops(), Seq::empty(), Seq::empty(), Seq::empty(), seen);
        let br2 = br.push((t[k].text, r.0, t[k].line));
        if adv(r.1, k, t.len()) { pif_rest(t, r.1, ti, br2, r.2) } else { if_end(t, r.1, ti, br2, None, r.2) }
    } else if 0 <= k < t.len() && t[k].kind == TokKind::Else {
        let r = pb(t, k + 1, end_stops(), Seq::empty(), Seq::empty(), Seq::empty(), seen);
        if_end(t, r.1, ti, br, Some(r.0), r.2)
    } else {
        if_end(t, k, ti, br, None, seen)
    }
}

/// A `for` or `while` loop whose header is token `i`.
pub open spec fn ploop(t: Seq<TokV>, i: int, seen: Seq<Seq<char>>) -> (AstV, int, Seq<Seq<char>>)
    decreases t.len() - i, 2int,
{
    if i < 0 || i >= t.len() {
        (AstV::Decision { text: Seq::empty(), line_start: 0, line_end: 0 }, i, seen)
    } else {
        let ti = t[i];
        let r = pb(t, i + 1, end_stops(), Seq::empty(), Seq::empty(), Seq::empty(), seen);
        if 0 <= r.1 < t.len() && t[r.1].kind == TokKind::End {
            (AstV::Loop { loop_kind: ti.kind, header: ti.text, line_start: ti.line, line_end: t[r.1].line, body: r.0 }, r.1 + 1, r.2)
        } else {
            (AstV::Loop { loop_kind: ti.kind, header: ti.text, line_start: ti.line, line_end: ti.line, body: r.0 }, r.1, r.2)
        }
    }
}

/// The `switch` node whose header is token `ti`, closing at token `k` when
/// that is an `end`.
pub open spec fn sw_end(t: Seq<TokV>, k: int, ti: TokV, cases: Seq<BrV>, other: Option<Seq<AstV>>, seen: Seq<Seq<char>>) -> (AstV, int, Seq<Seq<char>>) {
    if 0 <= k < t.len() && t[k].kind == TokKind::End {
        (AstV::Switch { expr: ti.text, line_start: ti.line, line_end: t[k].line, cases, otherwise: other }, k + 1, seen)
    } else {
        (AstV::Switch { expr: ti.text, line_start: ti.line, line_end: ti.line, cases, otherwise: other }, k, seen)
    }
}

/// A `switch` whose header is token `i`.
pub open spec fn pswitch(t: Seq<TokV>, i: int, seen: Seq<Seq<char>>) -> (AstV, int, Seq<Seq<char>>)
    decreases t.len() - i, 2int,
{
    if i < 0 || i >= t.len() {
        (AstV::Decision { text: Seq::empty(), line_start: 0, line_end: 0 }, i, seen)
    } else {
        psw_rest(t, i + 1, t[i], Seq::empty(), None, seen)
    }
}

/// The `case` arms and `otherwise` part of a `switch`, from token `k` on;
/// tokens of other kinds before them are skipped.
pub open spec fn psw_rest(t: Seq<TokV>, k: int, ti: TokV, cases: Seq<BrV>, other: Option<Seq<AstV>>, seen: Seq<Seq<char>>)
    -> (AstV, int, Seq<Seq<char>>)
    decreases t.len() - k, 1int,
{
    if 0 <= k < t.len() && t[k].kind != TokKind::End {
        if t[k].kind == TokKind::Case {
            let r = pb(t, k + 1, case_stops(), Seq::empty(), Seq::empty(), Seq::empty(), seen);
            let c2 = cases.push((t[k].text, r.0, t[k].line));
            if adv(r.1, k, t.len()) { psw_rest(t, r.1, ti, c2, other, r.2) } else { sw_end(t, r.1, ti, c2, other, r.2) }
        } else if t[k].kind == TokKind::Otherwise {
            let r = pb(t, k + 1, end_stops(), Seq::empty(), Seq::empty(), Seq::empty(), seen);
            sw_end(t, r.1, ti, cases, Some(r.0), r.2)
        } else {
            psw_rest(t, k + 1, ti, cases, other, seen)
        }
    } else {
        sw_end(t, k, ti, cases, other, seen)
    }
}


fn in_stops(stops: &[TokKind], k: TokKind) -> (r: bool)
    ensures r == stops@.contains(k),
{
    let mut j: usize = 0;
    while j < stops.len()
        invariant j <= stops@.len(), forall|x: int| 0 <= x < j ==> stops@[x] != k,
        decreases stops@.len() - j,
    {
        if stops[j] == k {
            assert(stops@[j as int] == k);
            return true;
        }
        j += 1;
    }
    false
}

fn kinds3(a: TokKind, b: TokKind, c: TokKind) -> (v: Vec<TokKind>)
    ensures v@ == seq![a, b, c],
{
    let mut v: Vec<TokKind> = Vec::new();
    v.push(a);
    v.push(b);
    v.push(c);
    assert(v@ =~= seq![a, b, c]);
    v
}

fn kinds1(a: TokKind) -> (v: Vec<TokKind>)
    ensures v@ == seq![a],
{
    let mut v: Vec<TokKind> = Vec::new();
    v.push(a);
    assert(v@ =~= seq![a]);
    v
}

fn flush_proc(out: &mut Vec<AstNode>, bt: &mut Vec<String>, bl: &mut Vec<usize>, seen: &mut Vec<String>)
    requires old(bt)@.len() == old(bl)@.len(),
    ensures
        (list_v(*final(out)), strs_view(final(seen)@))
            == flush(list_v(*old(out)), strs_view(old(bt)@), old(bl)@, strs_view(old(seen)@)),
        final(bt)@.len() == 0, final(bl)@.len() == 0,
{
    if bt.len() == 0 {
        return;
    }
    let text = summarize_process_lines(bt.as_slice(), seen);
    let ls = bl[0];
    let le = bl[bl.len() - 1];
    push_ast(out, AstNode::Process { text, line_start: ls, line_end: le });
    bt.clear();
    bl.clear();
}

fn pb_at(toks: &[Tok], i: usize, stops: &[TokKind], seen: &mut Vec<String>) -> (r: (Vec<AstNode>, usize))
    requires i <= toks@.len(),
    ensures
        (list_v(r.0), r.1 as int, strs_view(final(seen)@))
            == pb(toks_view(toks@), i as int, stops@, Seq::empty(), Seq::empty(), Seq::empty(), strs_view(old(seen)@)),
        i <= r.1 <= toks@.len(),
        r.1 == toks@.len() || stops@.contains(toks@[r.1 as int].kind),
    decreases toks@.len() - i, 3int,
{
    let ghost t = toks_view(toks@);
    let ghost target = pb(t, i as int, stops@, Seq::empty(), Seq::empty(), Seq::empty(), strs_view(seen@));
    let mut out: Vec<AstNode> = Vec::new();
    let mut bt: Vec<String> = Vec::new();
    let mut bl: Vec<usize> = Vec::new();
    let mut k = i;
    assert(list_v(out) =~= Seq::<AstV>::empty());
    assert(strs_view(bt@) =~= Seq::<Seq<char>>::empty());
    assert(bl@ =~= Seq::<usize>::empty());
    while k < toks.len()
        invariant
            t == toks_view(toks@), i <= k <= toks@.len(), bt@.len() == bl@.len(),
            target == pb(t, i as int, stops@, Seq::empty(), Seq::empty(), Seq::empty(), strs_view(old(seen)@)),
            pb(t, k as int, stops@, list_v(out), strs_view(bt@), bl@, strs_view(seen@)) == target,
        decreases toks@.len() - k,
    {
        assert(t[k as int] == toks@[k as int]@);
        let kind = toks[k].kind;
        if in_stops(stops, kind) {
            flush_proc(&mut out, &mut bt, &mut bl, seen);
            return (out, k);
        }
        if kind == TokKind::Stmt {
            let ghost b0 = strs_view(bt@);
            bt.push(toks[k].text.clone());
            bl.push(toks[k].line);
            assert(strs_view(bt@) =~= b0.push(t[k as int].text));
            k += 1;
        } else {
            flush_proc(&mut out, &mut bt, &mut bl, seen);
            assert(strs_view(bt@) =~= Seq::<Seq<char>>::empty());
            assert(bl@ =~= Seq::<usize>::empty());
            if kind == TokKind::If || kind == TokKind::For || kind == TokKind::While || kind == TokKind::Switch {
                let (node, ni) = if kind == TokKind::If {
                    parse_if_at(toks, k, seen)
                } else if kind == TokKind::Switch {
                    parse_switch_at(toks, k, seen)
                } else {
                    parse_loop_at(toks, k, seen)
                };
                push_ast(&mut out, node);
                k = ni;
            } else {
                let mut txt = chars_of(kind_str(kind));
                append_chars(&mut txt, &chars_of(" "));
                append_chars(&mut txt, &chars_of(toks[k].text.as_str()));
                let tt = trim_vec(&txt);
                push_ast(&mut out, AstNode::Process { text: string_of(&tt), line_start: toks[k].line, line_end: toks[k].line });
                k += 1;
            }
        }
    }
    flush_proc(&mut out, &mut bt, &mut bl, seen);
    (out, k)
}

fn if_end_at(toks: &[Tok], k: usize, ti: &Tok, br: Vec<IfBranch>, eb: Option<Vec<AstNode>>) -> (r: (AstNode, usize))
    requires k <= toks@.len(),
    ensures
        (ast_v(r.0), r.1 as int) == ({ let e = if_end(toks_view(toks@), k as int, ti@, br_v(br), opt_list_v(eb), Seq::empty()); (e.0, e.1) }),
        k <= r.1 <= toks@.len(),
{
    let ghost t = toks_view(toks@);
    if k < toks.len() && toks[k].kind == TokKind::End {
        assert(t[k as int] == toks@[k as int]@);
        let node = AstNode::If { cond: ti.text.clone(), line_start: ti.line, line_end: toks[k].line, branches: br, else_body: eb };
        (node, k + 1)
    } else {
        proof { if k < toks@.len() { assert(t[k as int] == toks@[k as int]@); } }
        let le = if br.len() > 0 { br[br.len() - 1].line } else { ti.line };
        proof {
            if br@.len() > 0 {
                lemma_branches_v_index(br@, br@.len() as int, br@.len() - 1);
                lemma_branches_v_len(br@, br@.len() as int);
            } else {
                lemma_branches_v_len(br@, br@.len() as int);
            }
        }
        let node = AstNode::If { cond: ti.text.clone(), line_start: ti.line, line_end: le, branches: br, else_body: eb };
        (node, k)
    }
}

proof fn lemma_asts_v_len(s: Seq<AstNode>, n: int)
    requires 0 <= n <= s.len(),
    ensures asts_v(s, n).len() == n,
    decreases n,
{
    if n > 0 {
        lemma_asts_v_len(s, n - 1);
    }
}

proof fn lemma_asts_v_index(s: Seq<AstNode>, n: int, k: int)
    requires 0 <= k < n <= s.len(),
    ensures asts_v(s, n)[k] == ast_v(s[k]), asts_v(s, n).len() == n,
    decreases n,
{
    lemma_asts_v_len(s, n);
    if k < n - 1 {
        lemma_asts_v_index(s, n - 1, k);
    }
}

proof fn lemma_branches_v_len(s: Seq<IfBranch>, n: int)
    requires 0 <= n <= s.len(),
    ensures branches_v(s, n).len() == n,
    decreases n,
{
    if n > 0 {
        lemma_branches_v_len(s, n - 1);
    }
}

proof fn lemma_branches_v_index(s: Seq<IfBranch>, n: int, k: int)
    requires 0 <= k < n <= s.len(),
    ensures
        branches_v(s, n)[k] == (s[k].cond@, asts_v(s[k].body@, s[k].body@.len() as int), s[k].line),
        branches_v(s, n).len() == n,
    decreases n,
{
    lemma_branches_v_len(s, n);
    if k < n - 1 {
        lemma_branches_v_index(s, n - 1, k);
    }
}

fn parse_if_at(toks: &[Tok], i: usize, seen: &mut Vec<String>) -> (r: (AstNode, usize))
    requires i < toks@.len(),
    ensures
        (ast_v(r.0), r.1 as int, strs_view(final(seen)@)) == pif(toks_view(toks@), i as int, strs_view(old(seen)@)),
        i < r.1 <= toks@.len(),
    decreases toks@.len() - i, 2int,
{
    let ghost t = toks_view(toks@);
    assert(t[i as int] == toks@[i as int]@);
    let ti = &toks[i];
    let (body, ni) = pb_at(toks, i + 1, kinds3(TokKind::Elseif, TokKind::Else, TokKind::End).as_slice(), seen);
    let mut br: Vec<IfBranch> = Vec::new();
    assert(br_v(br) =~= Seq::<BrV>::empty());
    push_branch(&mut br, IfBranch { cond: ti.text.clone(), body, line: ti.line });
    pif_rest_at(toks, ni, ti, br, seen)
}

fn pif_rest_at(toks: &[Tok], k: usize, ti: &Tok, br: Vec<IfBranch>, seen: &mut Vec<String>) -> (r: (AstNode, usize))
    requires k <= toks@.len(),
    ensures
        (ast_v(r.0), r.1 as int, strs_view(final(seen)@)) == pif_rest(toks_view(toks@), k as int, ti@, br_v(br), strs_view(old(seen)@)),
        k <= r.1 <= toks@.len(),
    decreases toks@.len() - k, 1int,
{
    let ghost t = toks_view(toks@);
    proof { if k < toks@.len() { assert(t[k as int] == toks@[k as int]@); } }
    if k < toks.len() && toks[k].kind == TokKind::Elseif {
        let (body, ni) = pb_at(toks, k + 1, kinds3(TokKind::Elseif, TokKind::Else, TokKind::End).as_slice(), seen);
        let mut br = br;
        push_branch(&mut br, IfBranch { cond: toks[k].text.clone(), body, line: toks[k].line });
        pif_rest_at(toks, ni, ti, br, seen)
    } else if k < toks.len() && toks[k].kind == TokKind::Else {
        let (body, ni) = pb_at(toks, k + 1, kinds1(TokKind::End).as_slice(), seen);
        if_end_at(toks, ni, ti, br, Some(body))
    } else {
        if_end_at(toks, k, ti, br, None)
    }
}

fn parse_loop_at(toks: &[Tok], i: usize, seen: &mut Vec<String>) -> (r: (AstNode, usize))
    requires i < toks@.len(),
    ensures
        (ast_v(r.0), r.1 as int, strs_view(final(seen)@)) == ploop(toks_view(toks@), i as int, strs_view(old(seen)@)),
        i < r.1 <= toks@.len(),
    decreases toks@.len() - i, 2int,
{
    let ghost t = toks_view(toks@);
    assert(t[i as int] == toks@[i as int]@);
    let ti = &toks[i];
    let (body, ni) = pb_at(toks, i + 1, kinds1(TokKind::End).as_slice(), seen);
    if ni < toks.len() && toks[ni].kind == TokKind::End {
        assert(t[ni as int] == toks@[ni as int]@);
        (AstNode::Loop { loop_kind: ti.kind, header: ti.text.clone(), line_start: ti.line, line_end: toks[ni].line, body }, ni + 1)
    } else {
        proof { if ni < toks@.len() { assert(t[ni as int] == toks@[ni as int]@); } }
        (AstNode::Loop { loop_kind: ti.kind, header: ti.text.clone(), line_start: ti.line, line_end: ti.line, body }, ni)
    }
}

fn sw_end_at(toks: &[Tok], k: usize, ti: &Tok, cases: Vec<IfBranch>, other: Option<Vec<AstNode>>) -> (r: (AstNode, usize))
    requires k <= toks@.len(),
    ensures
        (ast_v(r.0), r.1 as int) == ({ let e = sw_end(toks_view(toks@), k as int, ti@, br_v(cases), opt_list_v(other), Seq::empty()); (e.0, e.1) }),
        k <= r.1 <= toks@.len(),
{
    let ghost t = toks_view(toks@);
    if k < toks.len() && toks[k].kind == TokKind::End {
        assert(t[k as int] == toks@[k as int]@);
        (AstNode::Switch { expr: ti.text.clone(), line_start: ti.line, line_end: toks[k].line, cases, otherwise: other }, k + 1)
    } else {
        proof { if k < toks@.len() { assert(t[k as int] == toks@[k as int]@); } }
        (AstNode::Switch { expr: ti.text.clone(), line_start: ti.line, line_end: ti.line, cases, otherwise: other }, k)
    }
}

fn parse_switch_at(toks: &[Tok], i: usize, seen: &mut Vec<String>) -> (r: (AstNode, usize))
    requires i < toks@.len(),
    ensures
        (ast_v(r.0), r.1 as int, strs_view(final(seen)@)) == pswitch(toks_view(toks@), i as int, strs_view(old(seen)@)),
        i < r.1 <= toks@.len(),
    decreases toks@.len() - i, 2int,
{
    let ghost t = toks_view(toks@);
    assert(t[i as int] == toks@[i as int]@);
    let cases: Vec<IfBranch> = Vec::new();
    assert(br_v(cases) =~= Seq::<BrV>::empty());
    let _n = toks.len();
    psw_rest_at(toks, i + 1, &toks[i], cases, None, seen)
}

fn psw_rest_at(toks: &[Tok], k: usize, ti: &Tok, cases: Vec<IfBranch>, other: Option<Vec<AstNode>>, seen: &mut Vec<String>)
    -> (r: (AstNode, usize))
    requires k <= toks@.len(),
    ensures
        (ast_v(r.0), r.1 as int, strs_view(final(seen)@))
            == psw_rest(toks_view(toks@), k as int, ti@, br_v(cases), opt_list_v(other), strs_view(old(seen)@)),
        k <= r.1 <= toks@.len(),
    decreases toks@.len() - k, 1int,
{
    let ghost t = toks_view(toks@);
    proof { if k < toks@.len() { assert(t[k as int] == toks@[k as int]@); } }
    if k < toks.len() && toks[k].kind != TokKind::End {
        if toks[k].kind == TokKind::Case {
            let (body, ni) = pb_at(toks, k + 1, kinds3(TokKind::Case, TokKind::Otherwise, TokKind::End).as_slice(), seen);
            let mut cases = cases;
            push_branch(&mut cases, IfBranch { cond: toks[k].text.clone(), body, line: toks[k].line });
            psw_rest_at(toks, ni, ti, cases, other, seen)
        } else if toks[k].kind == TokKind::Otherwise {
            let (body, ni) = pb_at(toks, k + 1, kinds1(TokKind::End).as_slice(), seen);
            sw_end_at(toks, ni, ti, cases, Some(body))
        } else {
            psw_rest_at(toks, k + 1, ti, cases, other, seen)
        }
    } else {
        sw_end_at(toks, k, ti, cases, other)
    }
}

/// Parses statements from token `i` up to a token whose kind is in
/// `stop_kinds` (see `pb`); returns them and the index of that token.
pub fn parse_block(toks: &[Tok], i: usize, stop_kinds: &[TokKind], seen_vars: &mut Vec<String>) -> (r: (Vec<AstNode>, usize))
    ensures
        (list_v(r.0), r.1 as int, strs_view(final(seen_vars)@))
            == pb(toks_view(toks@), i as int, stop_kinds@, Seq::empty(), Seq::empty(), Seq::empty(), strs_view(old(seen_vars)@)),
        i <= toks@.len() ==> i <= r.1 <= toks@.len() && (r.1 == toks@.len() || stop_kinds@.contains(toks@[r.1 as int].kind)),
        i > toks@.len() ==> r.1 == i,
{
    if i > toks.len() {
        let v: Vec<AstNode> = Vec::new();
        assert(list_v(v) =~= Seq::<AstV>::empty());
        return (v, i);
    }
    pb_at(toks, i, stop_kinds, seen_vars)
}

/// Parses the `if` chain whose header is token `i` (see `pif`).
pub fn parse_if(toks: &[Tok], i: usize, seen_vars: &mut Vec<String>) -> (r: (AstNode, usize))
    requires i < toks@.len(),
    ensures
        (ast_v(r.0), r.1 as int, strs_view(final(seen_vars)@)) == pif(toks_view(toks@), i as int, strs_view(old(seen_vars)@)),
        i < r.1 <= toks@.len(),
{
    parse_if_at(toks, i, seen_vars)
}

/// Parses the `for`/`while` loop whose header is token `i` (see `ploop`).
pub fn parse_loop(toks: &[Tok], i: usize, seen_vars: &mut Vec<String>) -> (r: (AstNode, usize))
    requires i < toks@.len(),
    ensures
        (ast_v(r.0), r.1 as int, strs_view(final(seen_vars)@)) == ploop(toks_view(toks@), i as int, strs_view(old(seen_vars)@)),
        i < r.1 <= toks@.len(),
{
    parse_loop_at(toks, i, seen_vars)
}

/// Parses the `switch` whose header is token `i` (see `pswitch`).
pub fn parse_switch(toks: &[Tok], i: usize, seen_vars: &mut Vec<String>) -> (r: (AstNode, usize))
    requires i < toks@.len(),
    ensures
        (ast_v(r.0), r.1 as int, strs_view(final(seen_vars)@)) == pswitch(toks_view(toks@), i as int, strs_view(old(seen_vars)@)),
        i < r.1 <= toks@.len(),
{
    parse_switch_at(toks, i, seen_vars)
}


/// Whether a condition selects on the `Test` variable.
pub open spec fn is_test_cond(c: Seq<char>) -> bool {
    seq_contains(c, "strcmp(Test"@) || seq_contains(c, "Test =="@)
}

pub open spec fn select_test_text() -> Seq<char> {
    "Select Test case?"@
}

pub open spec fn test_values_set_text() -> Seq<char> {
    "Values set: Test, value (Default/theta0/thetadot0/spring_stiff/length/zeta/mass); else error"@
}

pub open spec fn test_values_updated_text() -> Seq<char> {
    "Values updated: theta0, thetadot0, L, m, k1, k2, k3, legend_label, graphtitle"@
}

/// The first `k` statements simplified (see `simp_stmt`).
pub open spec fn simp_list(s: Seq<AstV>, k: int) -> Seq<AstV>
    decreases s, k,
{
    if k <= 0 || k > s.len() { Seq::empty() } else { simp_list(s, k - 1) + simp_stmt(s[k - 1]) }
}

/// A statement simplified: an `if` that selects the test case near the top
/// of the file becomes a decision and a summary; a later one with at least
/// three arms becomes a summary; other nested blocks are simplified.
pub open spec fn simp_stmt(a: AstV) -> Seq<AstV>
    decreases a, 0int,
{
    match a {
        AstV::If { cond, line_start, line_end, branches, else_body } => {
            if is_test_cond(cond) && line_start <= 60 {
                seq![AstV::Decision { text: select_test_text(), line_start, line_end },
                    AstV::Process { text: test_values_set_text(), line_start, line_end }]
            } else if is_test_cond(cond) && line_start > 60 && branches.len() >= 3 {
                seq![AstV::Process { text: test_values_updated_text(), line_start, line_end }]
            } else {
                seq![AstV::If {
                    cond, line_start, line_end,
                    branches: simp_branches(branches, branches.len() as int),
                    else_body: match else_body { Some(d) => Some(simp_list(d, d.len() as int)), None => None },
                }]
            }
        },
        AstV::Loop { loop_kind, header, line_start, line_end, body } =>
            seq![AstV::Loop { loop_kind, header, line_start, line_end, body: simp_list(body, body.len() as int) }],
        AstV::Switch { expr, line_start, line_end, cases, otherwise } => seq![AstV::Switch {
            expr, line_start, line_end,
            cases: simp_branches(cases, cases.len() as int),
            otherwise: match otherwise { Some(d) => Some(simp_list(d, d.len() as int)), None => None },
        }],
        _ => seq![a],
    }
}

pub open spec fn simp_branches(b: Seq<BrV>, k: int) -> Seq<BrV>
    decreases b, k,
{
    if k <= 0 || k > b.len() {
        Seq::empty()
    } else {
        simp_branches(b, k - 1).push((b[k - 1].0, simp_list(b[k - 1].1, b[k - 1].1.len() as int), b[k - 1].2))
    }
}

fn contains_lit(s: &String, p: &str) -> (r: bool)
    ensures r == seq_contains(s@, p@),
{
    contains_vec(&chars_of(s.as_str()), &chars_of(p))
}

/// No `if` anywhere in the statement selects the test case.
pub open spec fn no_test_stmt(a: AstV) -> bool
    decreases a, 0int,
{
    match a {
        AstV::If { cond, line_start, line_end, branches, else_body } =>
            !is_test_cond(cond) && no_test_branches(branches, branches.len() as int)
                && match else_body { Some(d) => no_test_list(d, d.len() as int), None => true },
        AstV::Loop { loop_kind, header, line_start, line_end, body } => no_test_list(body, body.len() as int),
        AstV::Switch { expr, line_start, line_end, cases, otherwise } =>
            no_test_branches(cases, cases.len() as int)
                && match otherwise { Some(d) => no_test_list(d, d.len() as int), None => true },
        _ => true,
    }
}

pub open spec fn no_test_list(s: Seq<AstV>, k: int) -> bool
    decreases s, k,
{
    if k <= 0 || k > s.len() { true } else { no_test_list(s, k - 1) && no_test_stmt(s[k - 1]) }
}

pub open spec fn no_test_branches(b: Seq<BrV>, k: int) -> bool
    decreases b, k,
{
    if k <= 0 || k > b.len() { true } else { no_test_branches(b, k - 1) && no_test_list(b[k - 1].1, b[k - 1].1.len() as int) }
}

/// Simplifying a statement with no test-case `if` leaves it as it is.
pub proof fn lemma_simp_stmt_id(a: AstV)
    requires no_test_stmt(a),
    ensures simp_stmt(a) == seq![a],
    decreases a, 0int,
{
    match a {
        AstV::If { cond, line_start, line_end, branches, else_body } => {
            lemma_simp_branches_id(branches, branches.len() as int);
            assert(branches.take(branches.len() as int) =~= branches);
            match else_body {
                Some(d) => {
                    lemma_simp_list_id(d, d.len() as int);
                    assert(d.take(d.len() as int) =~= d);
                },
                None => {},
            }
        },
        AstV::Loop { loop_kind, header, line_start, line_end, body } => {
            lemma_simp_list_id(body, body.len() as int);
            assert(body.take(body.len() as int) =~= body);
        },
        AstV::Switch { expr, line_start, line_end, cases, otherwise } => {
            lemma_simp_branches_id(cases, cases.len() as int);
            assert(cases.take(cases.len() as int) =~= cases);
            match otherwise {
                Some(d) => {
                    lemma_simp_list_id(d, d.len() as int);
                    assert(d.take(d.len() as int) =~= d);
                },
                None => {},
            }
        },
        _ => {},
    }
}

/// Simplifying statements with no test-case `if` leaves them as they are.
pub proof fn lemma_simp_list_id(s: Seq<AstV>, k: int)
    requires 0 <= k <= s.len(), no_test_list(s, k),
    ensures simp_list(s, k) == s.take(k),
    decreases s, k,
{
    if k > 0 {
        lemma_simp_list_id(s, k - 1);
        assert(decreases_to!(s => s[k - 1]));
        lemma_simp_stmt_id(s[k - 1]);
        assert(s.take(k) =~= s.take(k - 1) + seq![s[k - 1]]);
    }
}

pub proof fn lemma_simp_branches_id(b: Seq<BrV>, k: int)
    requires 0 <= k <= b.len(), no_test_branches(b, k),
    ensures simp_branches(b, k) == b.take(k),
    decreases b, k,
{
    if k > 0 {
        lemma_simp_branches_id(b, k - 1);
        let body = b[k - 1].1;
        assert(decreases_to!(b => b[k - 1]));
        assert(decreases_to!(b[k - 1] => b[k - 1].1));
        lemma_simp_list_id(body, body.len() as int);
        assert(body.take(body.len() as int) =~= body);
        assert(b.take(k) =~= b.take(k - 1).push(b[k - 1]));
    }
}

/// Simplifies a block (see `simp_list`).
pub fn simplify_block(stmts: &[AstNode]) -> (r: Vec<AstNode>)
    ensures list_v(r) == simp_list(asts_v(stmts@, stmts@.len() as int), stmts@.len() as int),
    decreases stmts@, 1int,
{
    let ghost s = asts_v(stmts@, stmts@.len() as int);
    proof { lemma_asts_v_len(stmts@, stmts@.len() as int); }
    let mut out: Vec<AstNode> = Vec::new();
    assert(list_v(out) =~= Seq::<AstV>::empty());
    let mut k: usize = 0;
    while k < stmts.len()
        invariant
            k <= stmts@.len(), s == asts_v(stmts@, stmts@.len() as int), s.len() == stmts@.len(),
            list_v(out) == simp_list(s, k as int),
        decreases stmts@.len() - k,
    {
        proof { lemma_asts_v_index(stmts@, stmts@.len() as int, k as int); }
        assert(decreases_to!(stmts@ => stmts@[k as int]));
        simplify_stmt(&stmts[k], &mut out);
        k += 1;
    }
    out
}

fn simplify_stmt(st: &AstNode, out: &mut Vec<AstNode>)
    ensures list_v(*final(out)) == list_v(*old(out)) + simp_stmt(ast_v(*st)),
    decreases *st, 0int,
{
    match st {
        AstNode::If { cond, line_start, line_end, branches, else_body } => {
            let test = contains_lit(cond, "strcmp(Test") || contains_lit(cond, "Test ==");
            proof { lemma_branches_v_len(branches@, branches@.len() as int); }
            if test && *line_start <= 60 {
                let ghost o0 = list_v(*out);
                push_ast(out, AstNode::Decision { text: String::from_str("Select Test case?"), line_start: *line_start, line_end: *line_end });
                push_ast(out, AstNode::Process {
                    text: String::from_str("Values set: Test, value (Default/theta0/thetadot0/spring_stiff/length/zeta/mass); else error"),
                    line_start: *line_start, line_end: *line_end,
                });
                assert(list_v(*out) =~= o0 + simp_stmt(ast_v(*st)));
            } else if test && *line_start > 60 && branches.len() >= 3 {
                let ghost o0 = list_v(*out);
                push_ast(out, AstNode::Process {
                    text: String::from_str("Values updated: theta0, thetadot0, L, m, k1, k2, k3, legend_label, graphtitle"),
                    line_start: *line_start, line_end: *line_end,
                });
                assert(list_v(*out) =~= o0 + simp_stmt(ast_v(*st)));
            } else {
                proof {
                    assert(decreases_to!(*st => (*st)->If_branches));
                    assert(decreases_to!(*branches => branches@));
                }
                let b2 = simplify_branches(branches);
                let e2 = match else_body {
                    Some(d) => {
                        proof { lemma_asts_v_len(d@, d@.len() as int); }
                        proof {
                            assert(decreases_to!(*st => (*st)->If_else_body));
                            assert(decreases_to!((*st)->If_else_body => (*st)->If_else_body->0));
                            assert(decreases_to!(*d => d@));
                        }
                        Some(simplify_block(d.as_slice()))
                    },
                    None => None,
                };
                let ghost o0 = list_v(*out);
                let node = AstNode::If { cond: cond.clone(), line_start: *line_start, line_end: *line_end, branches: b2, else_body: e2 };
                push_ast(out, node);
                assert(list_v(*out) =~= o0 + simp_stmt(ast_v(*st)));
            }
        },
        AstNode::Loop { loop_kind, header, line_start, line_end, body } => {
            proof {
                assert(decreases_to!(*st => (*st)->Loop_body));
                assert(decreases_to!(*body => body@));
            }
            let b = simplify_block(body.as_slice());
            proof { lemma_asts_v_len(body@, body@.len() as int); }
            let ghost o0 = list_v(*out);
            push_ast(out, AstNode::Loop { loop_kind: *loop_kind, header: header.clone(), line_start: *line_start, line_end: *line_end, body: b });
            assert(list_v(*out) =~= o0 + simp_stmt(ast_v(*st)));
        },
        AstNode::Switch { expr, line_start, line_end, cases, otherwise } => {
            proof {
                assert(decreases_to!(*st => (*st)->Switch_cases));
                assert(decreases_to!(*cases => cases@));
            }
            proof { lemma_branches_v_len(cases@, cases@.len() as int); }
            let c2 = simplify_branches(cases);
            let o2 = match otherwise {
                Some(d) => {
                    proof { lemma_asts_v_len(d@, d@.len() as int); }
                    proof {
                        assert(decreases_to!(*st => (*st)->Switch_otherwise));
                        assert(decreases_to!((*st)->Switch_otherwise => (*st)->Switch_otherwise->0));
                        assert(decreases_to!(*d => d@));
                    }
                    Some(simplify_block(d.as_slice()))
                },
                None => None,
            };
            let ghost o0 = list_v(*out);
            push_ast(out, AstNode::Switch { expr: expr.clone(), line_start: *line_start, line_end: *line_end, cases: c2, otherwise: o2 });
            assert(list_v(*out) =~= o0 + simp_stmt(ast_v(*st)));
        },
        AstNode::Process { text, line_start, line_end } => {
            let ghost o0 = list_v(*out);
            push_ast(out, AstNode::Process { text: text.clone(), line_start: *line_start, line_end: *line_end });
            assert(list_v(*out) =~= o0 + simp_stmt(ast_v(*st)));
        },
        AstNode::Decision { text, line_start, line_end } => {
            let ghost o0 = list_v(*out);
            push_ast(out, AstNode::Decision { text: text.clone(), line_start: *line_start, line_end: *line_end });
            assert(list_v(*out) =~= o0 + simp_stmt(ast_v(*st)));
        },
    }
}

fn simplify_branches(brs: &Vec<IfBranch>) -> (r: Vec<IfBranch>)
    ensures br_v(r) == simp_branches(br_v(*brs), brs@.len() as int),
    decreases brs@, 2int,
{
    let ghost b = br_v(*brs);
    proof { lemma_branches_v_len(brs@, brs@.len() as int); }
    let mut out: Vec<IfBranch> = Vec::new();
    assert(br_v(out) =~= Seq::<BrV>::empty());
    let mut j: usize = 0;
    while j < brs.len()
        invariant
            j <= brs@.len(), b == br_v(*brs), b.len() == brs@.len(),
            br_v(out) == simp_branches(b, j as int),
        decreases brs@.len() - j,
    {
        proof { lemma_branches_v_index(brs@, brs@.len() as int, j as int); }
        assert(decreases_to!(brs@ => brs@[j as int]));
        assert(decreases_to!(brs@[j as int] => brs@[j as int].body));
        assert(decreases_to!(brs@[j as int].body => brs@[j as int].body@));
        proof { lemma_asts_v_len(brs@[j as int].body@, brs@[j as int].body@.len() as int); }
        let body = simplify_block(brs[j].body.as_slice());
        push_branch(&mut out, IfBranch { cond: brs[j].cond.clone(), body, line: brs[j].line });
        j += 1;
    }
    out
}


/// The number of statements and arms in a statement.
pub open spec fn a_size(a: AstV) -> int
    decreases a, 0int,
{
    match a {
        AstV::Process { .. } => 1,
        AstV::Decision { .. } => 1,
        AstV::Loop { body, .. } => 1 + l_size(body, body.len() as int),
        AstV::If { branches, else_body, .. } => 1 + b_size(branches, branches.len() as int)
            + match else_body { Some(d) => 1 + l_size(d, d.len() as int), None => 1 },
        AstV::Switch { cases, otherwise, .. } => 1 + b_size(cases, cases.len() as int)
            + match otherwise { Some(d) => 1 + l_size(d, d.len() as int), None => 1 },
    }
}

pub open spec fn l_size(s: Seq<AstV>, k: int) -> int
    decreases s, k,
{
    if k <= 0 || k > s.len() { 0 } else { l_size(s, k - 1) + a_size(s[k - 1]) }
}

pub open spec fn b_size(b: Seq<BrV>, k: int) -> int
    decreases b, k,
{
    if k <= 0 || k > b.len() { 0 } else { b_size(b, k - 1) + 1 + l_size(b[k - 1].1, b[k - 1].1.len() as int) }
}

proof fn lemma_a_size_pos(a: AstV)
    ensures a_size(a) >= 1,
    decreases a, 0int,
{
    match a {
        AstV::Loop { body, .. } => { lemma_l_size_nonneg(body, body.len() as int); },
        AstV::If { branches, else_body, .. } => {
            lemma_b_size_nonneg(branches, branches.len() as int);
            match else_body { Some(d) => { lemma_l_size_nonneg(d, d.len() as int); }, None => {} }
        },
        AstV::Switch { cases, otherwise, .. } => {
            lemma_b_size_nonneg(cases, cases.len() as int);
            match otherwise { Some(d) => { lemma_l_size_nonneg(d, d.len() as int); }, None => {} }
        },
        _ => {},
    }
}

proof fn lemma_l_size_nonneg(s: Seq<AstV>, k: int)
    ensures l_size(s, k) >= 0, 0 <= k <= s.len() ==> l_size(s, k) >= k,
    decreases s, k,
{
    if 0 < k <= s.len() {
        lemma_l_size_nonneg(s, k - 1);
        lemma_a_size_pos(s[k - 1]);
    }
}

proof fn lemma_b_size_nonneg(b: Seq<BrV>, k: int)
    ensures b_size(b, k) >= 0, 0 <= k <= b.len() ==> b_size(b, k) >= k,
    decreases b, k,
{
    if 0 < k <= b.len() {
        lemma_b_size_nonneg(b, k - 1);
        lemma_l_size_nonneg(b[k - 1].1, b[k - 1].1.len() as int);
    }
}

proof fn lemma_l_size_mono(s: Seq<AstV>, a: int, b: int)
    requires 0 <= a <= b <= s.len(),
    ensures l_size(s, a) <= l_size(s, b),
    decreases b - a,
{
    if a < b {
        lemma_l_size_mono(s, a, b - 1);
        lemma_a_size_pos(s[b - 1]);
    }
}

proof fn lemma_b_size_branch(b: Seq<BrV>, k: int, i: int)
    requires 0 <= i < k <= b.len(),
    ensures b_size(b, k) >= b_size(b, i) + 1 + l_size(b[i].1, b[i].1.len() as int) + (k - i - 1),
        b_size(b, i) >= i,
    decreases k,
{
    lemma_b_size_nonneg(b, i);
    if k - 1 > i {
        lemma_b_size_branch(b, k - 1, i);
        lemma_l_size_nonneg(b[k - 1].1, b[k - 1].1.len() as int);
    }
}

/// Adding a node on plain values.
pub open spec fn o_add(g: GState, shape: Shape, text: Seq<char>, ls: Option<usize>, le: Option<usize>, lane: i32) -> (GState, usize) {
    let id = g.next_id as usize;
    (GState {
        nodes: g.nodes.push(NodeView { id, shape, text, line_start: ls, line_end: le, lane, level: None }),
        edges: g.edges,
        next_id: g.next_id + 1,
    }, id)
}

pub type RRes = (GState, Seq<ExitV>);

/// The first `k` statements of `s` walked with exits `cur` flowing in.
pub open spec fn ow_list(g: GState, s: Seq<AstV>, k: int, cur: Seq<ExitV>, lane: i32) -> RRes
    decreases s, k,
{
    if k <= 0 || k > s.len() {
        (g, cur)
    } else {
        let r = ow_list(g, s, k - 1, cur, lane);
        ow_stmt(r.0, s[k - 1], r.1, lane)
    }
}

/// One statement: its node, entered by `cur`. Loops get `next` edges back
/// from their body and leave by `done`; an `if` leaves by its arms' exits
/// and an `else` or `no` exit; a `switch` by its cases' exits and an
/// `otherwise` exit, or bare if it has neither.
pub open spec fn ow_stmt(g: GState, a: AstV, cur: Seq<ExitV>, lane: i32) -> RRes
    decreases a, 0int,
{
    match a {
        AstV::Process { text, line_start, line_end } => {
            let (g1, nid) = o_add(g, Shape::Process, text, Some(line_start), Some(line_end), lane);
            (g_connect(g1, cur, nid), bare_exit(nid))
        },
        AstV::Decision { text, line_start, line_end } => {
            let (g1, did) = o_add(g, Shape::Decision, text, Some(line_start), Some(line_end), lane);
            (g_connect(g1, cur, did), bare_exit(did))
        },
        AstV::Loop { loop_kind, header, line_start, line_end, body } => {
            let (g1, lid) = o_add(g, Shape::Loop, spec_trim(kind_name(loop_kind) + " "@ + header), Some(line_start), Some(line_end), lane);
            let g2 = g_connect(g1, cur, lid);
            let b = ow_list(g2, body, body.len() as int, one_exit(lid, "enter"@), lane);
            (GState { edges: b.0.edges + next_edges(b.1, lid), ..b.0 }, one_exit(lid, "done"@))
        },
        AstV::If { cond, line_start, line_end, branches, else_body } => {
            let (g1, did) = o_add(g, Shape::Decision, spec_trim("if "@ + cond), Some(line_start), Some(line_end), lane);
            let g2 = g_connect(g1, cur, did);
            let r = ow_branches(g2, branches, branches.len() as int, did, lane, false);
            match else_body {
                Some(d) => if d.len() == 0 {
                    (r.0, r.1 + one_exit(did, "else"@))
                } else {
                    let e = ow_list(r.0, d, d.len() as int, one_exit(did, "else"@), lane.wrapping_add(1));
                    (e.0, r.1 + e.1)
                },
                None => (r.0, r.1 + one_exit(did, "no"@)),
            }
        },
        AstV::Switch { expr, line_start, line_end, cases, otherwise } => {
            let (g1, did) = o_add(g, Shape::Decision, spec_trim("switch "@ + expr), Some(line_start), Some(line_end), lane);
            let g2 = g_connect(g1, cur, did);
            let r = ow_branches(g2, cases, cases.len() as int, did, lane, true);
            let o: RRes = match otherwise {
                Some(d) => if d.len() == 0 {
                    (r.0, r.1 + one_exit(did, "otherwise"@))
                } else {
                    let e = ow_list(r.0, d, d.len() as int, one_exit(did, "otherwise"@), lane.wrapping_add(1));
                    (e.0, r.1 + e.1)
                },
                None => r,
            };
            if o.1.len() == 0 { (o.0, bare_exit(did)) } else { o }
        },
    }
}

/// The edge label of arm `bi` of an `if` (`sw` false) or a `switch`.
pub open spec fn arm_label(b: Seq<BrV>, bi: int, sw: bool) -> Seq<char> {
    if sw { "case "@ + b[bi].0 } else if bi == 0 { "yes"@ } else { "elseif"@ }
}

/// Half of `x`, rounded toward zero as `i32` division rounds.
pub open spec fn half_toward_zero(x: i32) -> i32 {
    if x >= 0 { (x / 2) as i32 } else { (-((-(x as int)) / 2)) as i32 }
}

/// The lane of arm `bi` of `n` arms of a decision in lane `lane`, in `i32`
/// arithmetic that wraps.
pub open spec fn arm_lane(lane: i32, bi: int, n: int, sw: bool) -> i32 {
    if sw {
        lane.wrapping_add(bi as i32).wrapping_sub(half_toward_zero(n as i32))
    } else if bi == 0 {
        lane.wrapping_sub(1)
    } else {
        lane.wrapping_add(bi as i32).wrapping_sub(1)
    }
}

/// The first `k` arms of decision `did`, their exits gathered; an empty arm
/// leaves by the decision itself.
pub open spec fn ow_branches(g: GState, b: Seq<BrV>, k: int, did: usize, lane: i32, sw: bool) -> RRes
    decreases b, k,
{
    if k <= 0 || k > b.len() {
        (g, Seq::empty())
    } else {
        let r = ow_branches(g, b, k - 1, did, lane, sw);
        let body = b[k - 1].1;
        let lbl = arm_label(b, k - 1, sw);
        if body.len() == 0 {
            (r.0, r.1 + one_exit(did, lbl))
        } else {
            let e = ow_list(r.0, body, body.len() as int, one_exit(did, lbl), arm_lane(lane, k - 1, b.len() as int, sw));
            (e.0, r.1 + e.1)
        }
    }
}

pub open spec fn gs3(nodes: Seq<Node>, edges: Seq<Edge>, next_id: usize) -> GState {
    GState { nodes: nodes_view(nodes), edges: edges_view(edges), next_id: next_id as int }
}

/// A loop returns to its header: every exit of its walked body is joined to
/// the loop node by a `next` edge, and the loop itself is left by `done`.
pub proof fn lemma_loop_body_returns(g: GState, loop_kind: TokKind, header: Seq<char>, ls: usize, le: usize, body: Seq<AstV>,
    cur: Seq<ExitV>, lane: i32)
    ensures ({
        let lid = g.next_id as usize;
        let t = spec_trim(kind_name(loop_kind) + " "@ + header);
        let g2 = g_connect(o_add(g, Shape::Loop, t, Some(ls), Some(le), lane).0, cur, lid);
        let ex = ow_list(g2, body, body.len() as int, one_exit(lid, "enter"@), lane).1;
        let r = ow_stmt(g, AstV::Loop { loop_kind, header, line_start: ls, line_end: le, body }, cur, lane);
        &&& forall|i: int| 0 <= i < ex.len() ==>
            r.0.edges.contains(EdgeView { from: (#[trigger] ex[i]).0, to: lid, label: Some("next"@), back_edge: false })
        &&& r.1 == one_exit(lid, "done"@)
    }),
{
    let lid = g.next_id as usize;
    let t = spec_trim(kind_name(loop_kind) + " "@ + header);
    let g2 = g_connect(o_add(g, Shape::Loop, t, Some(ls), Some(le), lane).0, cur, lid);
    let b = ow_list(g2, body, body.len() as int, one_exit(lid, "enter"@), lane);
    lemma_next_edges_each(b.0.edges, b.1, lid);
}

/// Statements follow one another: every exit of the first `k` statements
/// is joined, with its label, to the node of statement `k + 1`.
pub proof fn lemma_ow_list_chains(g: GState, s: Seq<AstV>, k: int, cur: Seq<ExitV>, lane: i32)
    requires 0 <= g.next_id, 0 <= k < s.len(),
    ensures ({
        let r = ow_list(g, s, k, cur, lane);
        forall|i: int| 0 <= i < r.1.len() ==> ow_list(g, s, k + 1, cur, lane).0.edges.contains(
            EdgeView { from: (#[trigger] r.1[i]).0, to: r.0.next_id as usize, label: r.1[i].1, back_edge: false })
    }),
{
    lemma_ow_list(g, s, k, cur, lane);
    let r = ow_list(g, s, k, cur, lane);
    lemma_ow_entered(r.0, s[k], r.1, lane);
}

/// Every statement is entered by all the exits that flow into it: for each
/// incoming exit there is an edge, with that exit's label, to the
/// statement's node.
pub proof fn lemma_ow_entered(g: GState, a: AstV, cur: Seq<ExitV>, lane: i32)
    requires 0 <= g.next_id,
    ensures forall|i: int| 0 <= i < cur.len() ==> ow_stmt(g, a, cur, lane).0.edges.contains(
        EdgeView { from: (#[trigger] cur[i]).0, to: g.next_id as usize, label: cur[i].1, back_edge: false }),
{
    let id = g.next_id as usize;
    let r = ow_stmt(g, a, cur, lane);
    let (shape, text, ls, le) = match a {
        AstV::Process { text, line_start, line_end } => (Shape::Process, text, line_start, line_end),
        AstV::Decision { text, line_start, line_end } => (Shape::Decision, text, line_start, line_end),
        AstV::Loop { loop_kind, header, line_start, line_end, .. } =>
            (Shape::Loop, spec_trim(kind_name(loop_kind) + " "@ + header), line_start, line_end),
        AstV::If { cond, line_start, line_end, .. } => (Shape::Decision, spec_trim("if "@ + cond), line_start, line_end),
        AstV::Switch { expr, line_start, line_end, .. } => (Shape::Decision, spec_trim("switch "@ + expr), line_start, line_end),
    };
    let g2 = g_connect(o_add(g, shape, text, Some(ls), Some(le), lane).0, cur, id);
    lemma_connect_has(o_add(g, shape, text, Some(ls), Some(le), lane).0, cur, id);
    assert(g2.next_id == g.next_id + 1);
    assert forall|i: int| 0 <= i < cur.len() implies r.0.edges.contains(
        EdgeView { from: (#[trigger] cur[i]).0, to: id, label: cur[i].1, back_edge: false }) by {
        let e = EdgeView { from: cur[i].0, to: id, label: cur[i].1, back_edge: false };
        match a {
            AstV::Process { .. } => {},
            AstV::Decision { .. } => {},
            AstV::Loop { body, .. } => {
                lemma_ow_list(g2, body, body.len() as int, one_exit(id, "enter"@), lane);
                let b = ow_list(g2, body, body.len() as int, one_exit(id, "enter"@), lane);
                lemma_grows_keeps_edge(g2, b.0, e);
                lemma_append_keeps_edge(b.0.edges, next_edges(b.1, id), e);
            },
            AstV::If { branches, else_body, .. } => {
                lemma_ow_branches(g2, branches, branches.len() as int, id, lane, false);
                let rb = ow_branches(g2, branches, branches.len() as int, id, lane, false);
                lemma_grows_keeps_edge(g2, rb.0, e);
                match else_body {
                    Some(d) => {
                        lemma_ow_list(rb.0, d, d.len() as int, one_exit(id, "else"@), lane.wrapping_add(1));
                        lemma_grows_keeps_edge(rb.0, ow_list(rb.0, d, d.len() as int, one_exit(id, "else"@), lane.wrapping_add(1)).0, e);
                    },
                    None => {},
                }
            },
            AstV::Switch { cases, otherwise, .. } => {
                lemma_ow_branches(g2, cases, cases.len() as int, id, lane, true);
                let rb = ow_branches(g2, cases, cases.len() as int, id, lane, true);
                lemma_grows_keeps_edge(g2, rb.0, e);
                match otherwise {
                    Some(d) => {
                        lemma_ow_list(rb.0, d, d.len() as int, one_exit(id, "otherwise"@), lane.wrapping_add(1));
                        lemma_grows_keeps_edge(rb.0, ow_list(rb.0, d, d.len() as int, one_exit(id, "otherwise"@), lane.wrapping_add(1)).0, e);
                    },
                    None => {},
                }
            },
        }
    }
}

/// Every arm of an `if` or a `switch` flows on: the exits of each arm's
/// walked body (the arm's exit itself when the body is empty) are exits of
/// the arms taken together.
pub proof fn lemma_arm_exits_kept(g: GState, b: Seq<BrV>, k: int, did: usize, lane: i32, sw: bool, j: int)
    requires 0 <= j < k <= b.len(),
    ensures ({
        let pre = ow_branches(g, b, j, did, lane, sw);
        exits_among(ow_list(pre.0, b[j].1, b[j].1.len() as int, one_exit(did, arm_label(b, j, sw)),
            arm_lane(lane, j, b.len() as int, sw)).1, ow_branches(g, b, k, did, lane, sw).1)
    }),
    decreases k,
{
    let r = ow_branches(g, b, k - 1, did, lane, sw);
    let body = b[k - 1].1;
    let e = ow_list(r.0, body, body.len() as int, one_exit(did, arm_label(b, k - 1, sw)), arm_lane(lane, k - 1, b.len() as int, sw));
    lemma_among_concat(r.1, e.1);
    if j < k - 1 {
        lemma_arm_exits_kept(g, b, k - 1, did, lane, sw, j);
        let pre = ow_branches(g, b, j, did, lane, sw);
        lemma_among_trans(ow_list(pre.0, b[j].1, b[j].1.len() as int, one_exit(did, arm_label(b, j, sw)),
            arm_lane(lane, j, b.len() as int, sw)).1, r.1, r.1 + e.1);
    }
}

/// An `if` flows on through all its ways out: the exits of its arms, of its
/// `else` body (the `else` exit itself when that body is empty), or a `no`
/// exit when it has no `else`.
pub proof fn lemma_if_exits(g: GState, cond: Seq<char>, ls: usize, le: usize, branches: Seq<BrV>,
    else_body: Option<Seq<AstV>>, cur: Seq<ExitV>, lane: i32)
    ensures ({
        let did = g.next_id as usize;
        let g2 = g_connect(o_add(g, Shape::Decision, spec_trim("if "@ + cond), Some(ls), Some(le), lane).0, cur, did);
        let rb = ow_branches(g2, branches, branches.len() as int, did, lane, false);
        let r = ow_stmt(g, AstV::If { cond, line_start: ls, line_end: le, branches, else_body }, cur, lane);
        &&& exits_among(rb.1, r.1)
        &&& (else_body matches Some(d) ==>
                exits_among(ow_list(rb.0, d, d.len() as int, one_exit(did, "else"@), lane.wrapping_add(1)).1, r.1))
        &&& (else_body is None ==> r.1.contains((did, Some("no"@))))
    }),
{
    let did = g.next_id as usize;
    let g2 = g_connect(o_add(g, Shape::Decision, spec_trim("if "@ + cond), Some(ls), Some(le), lane).0, cur, did);
    let rb = ow_branches(g2, branches, branches.len() as int, did, lane, false);
    match else_body {
        Some(d) => {
            let e = ow_list(rb.0, d, d.len() as int, one_exit(did, "else"@), lane.wrapping_add(1));
            lemma_among_concat(rb.1, e.1);
        },
        None => {
            let x = one_exit(did, "no"@);
            lemma_among_concat(rb.1, x);
            assert((rb.1 + x)[rb.1.len() as int] == x[0]);
        },
    }
}

/// A `switch` flows on through all its ways out: the exits of its cases and
/// of its `otherwise` body (the `otherwise` exit itself when that body is
/// empty); with no way out at all it leaves by a bare exit.
pub proof fn lemma_switch_exits(g: GState, expr: Seq<char>, ls: usize, le: usize, cases: Seq<BrV>,
    otherwise: Option<Seq<AstV>>, cur: Seq<ExitV>, lane: i32)
    ensures ({
        let did = g.next_id as usize;
        let g2 = g_connect(o_add(g, Shape::Decision, spec_trim("switch "@ + expr), Some(ls), Some(le), lane).0, cur, did);
        let rb = ow_branches(g2, cases, cases.len() as int, did, lane, true);
        let r = ow_stmt(g, AstV::Switch { expr, line_start: ls, line_end: le, cases, otherwise }, cur, lane);
        &&& exits_among(rb.1, r.1)
        &&& (otherwise matches Some(d) ==>
                exits_among(ow_list(rb.0, d, d.len() as int, one_exit(did, "otherwise"@), lane.wrapping_add(1)).1, r.1))
        &&& r.1.len() > 0
    }),
{
    let did = g.next_id as usize;
    let g2 = g_connect(o_add(g, Shape::Decision, spec_trim("switch "@ + expr), Some(ls), Some(le), lane).0, cur, did);
    let rb = ow_branches(g2, cases, cases.len() as int, did, lane, true);
    match otherwise {
        Some(d) => {
            let e = ow_list(rb.0, d, d.len() as int, one_exit(did, "otherwise"@), lane.wrapping_add(1));
            lemma_among_concat(rb.1, e.1);
            if rb.1.len() + e.1.len() == 0 {
                assert(exits_among(rb.1, bare_exit(did)));
            }
        },
        None => {
            if rb.1.len() == 0 {
                assert(exits_among(rb.1, bare_exit(did)));
            } else {
                assert(rb.1 =~= rb.1 + Seq::<ExitV>::empty());
                lemma_among_concat(rb.1, Seq::<ExitV>::empty());
            }
        },
    }
}

/// Room for `size` more node ids within `usize`.
pub open spec fn ow_pre(nodes: Seq<Node>, edges: Seq<Edge>, next_id: usize, size: int, inc: Seq<Exit>) -> bool {
    &&& graph_wf(nodes, edges, next_id)
    &&& exits_ok(exits_view(inc), next_id)
    &&& next_id + size < usize::MAX
}

pub open spec fn ow_post(n0: usize, nodes: Seq<Node>, edges: Seq<Edge>, next_id: usize, size: int, out: Seq<Exit>) -> bool {
    &&& graph_wf(nodes, edges, next_id)
    &&& n0 <= next_id <= n0 + size
    &&& exits_ok(exits_view(out), next_id)
}

/// Appends a node with the next id and returns that id.
pub fn add_node(
    nodes: &mut Vec<Node>,
    next_id: &mut usize,
    shape: Shape,
    text: String,
    line_start: Option<usize>,
    line_end: Option<usize>,
    lane: i32,
) -> (id: usize)
    requires *old(next_id) < usize::MAX,
    ensures
        id == *old(next_id),
        *final(next_id) == id + 1,
        nodes_view(final(nodes)@) == nodes_view(old(nodes)@).push(NodeView {
            id, shape, text: text@, line_start, line_end, lane, level: None,
        }),
        final(nodes)@.len() == old(nodes)@.len() + 1,
        forall|k: int| 0 <= k < old(nodes)@.len() ==> (#[trigger] final(nodes)@[k]).id == old(nodes)@[k].id,
        final(nodes)@.last().id == id,
{
    push_node(nodes, next_id, shape, text, line_start, line_end, lane)
}

/// Appends an edge from every exit to `dst`, labelled with the exit's
/// label or else `label`.
pub fn connect(edges: &mut Vec<Edge>, srcs: &[Exit], dst: usize, label: Option<&str>)
    ensures
        edges_view(final(edges)@) == edges_view(old(edges)@) + spec_connect_edges(exits_view(srcs@), dst,
            match label { Some(s) => Some(s@), None => None }),
{
    connect_edges(edges, srcs, dst, label)
}

fn add_node_wf(
    nodes: &mut Vec<Node>, edges: &Vec<Edge>, next_id: &mut usize, shape: Shape, text: String,
    line_start: Option<usize>, line_end: Option<usize>, lane: i32,
) -> (id: usize)
    requires graph_wf(old(nodes)@, edges@, *old(next_id)), *old(next_id) < usize::MAX,
    ensures
        graph_wf(final(nodes)@, edges@, *final(next_id)),
        id == *old(next_id), *final(next_id) == id + 1,
        gs3(final(nodes)@, edges@, *final(next_id))
            == o_add(gs3(old(nodes)@, edges@, *old(next_id)), shape, text@, line_start, line_end, lane).0,
{
    let ghost n0 = nodes@;
    let id = add_node(nodes, next_id, shape, text, line_start, line_end, lane);
    proof {
        assert forall|k: int| 0 <= k < nodes@.len() implies (#[trigger] nodes@[k]).id == k + 1 by {
            if k < n0.len() { assert(nodes@[k].id == n0[k].id); }
        }
    }
    id
}

fn connect_wf(nodes: &Vec<Node>, edges: &mut Vec<Edge>, next_id: usize, incoming: &[Exit], dst: usize)
    requires graph_wf(nodes@, old(edges)@, next_id), exits_ok(exits_view(incoming@), next_id), 1 <= dst < next_id,
    ensures
        graph_wf(nodes@, final(edges)@, next_id),
        gs3(nodes@, final(edges)@, next_id) == g_connect(gs3(nodes@, old(edges)@, next_id), exits_view(incoming@), dst),
{
    let ghost e0 = edges@;
    connect(edges, incoming, dst, None);
    proof {
        let add = spec_connect_edges(exits_view(incoming@), dst, None);
        assert(edges_view(edges@).len() == edges@.len());
        assert(edges@.len() == e0.len() + incoming@.len());
        assert forall|k: int| 0 <= k < edges@.len() implies
            1 <= (#[trigger] edges@[k]).from < next_id && 1 <= edges@[k].to < next_id by {
            assert(edges_view(edges@)[k] == edges@[k]@);
            if k < e0.len() {
                assert(edges_view(e0)[k] == e0[k]@);
            } else {
                let j = k - e0.len();
                assert(add[j] == edges_view(edges@)[k]);
                assert(exits_view(incoming@)[j] == incoming@[j]@);
            }
        }
    }
}

fn next_edges_wf(nodes: &Vec<Node>, edges: &mut Vec<Edge>, next_id: usize, exits: &Vec<Exit>, lid: usize)
    requires graph_wf(nodes@, old(edges)@, next_id), exits_ok(exits_view(exits@), next_id), 1 <= lid < next_id,
    ensures
        graph_wf(nodes@, final(edges)@, next_id),
        edges_view(final(edges)@) == edges_view(old(edges)@) + next_edges(exits_view(exits@), lid),
{
    let ghost e0 = edges_view(edges@);
    let ghost ev = exits_view(exits@);
    let mut k: usize = 0;
    while k < exits.len()
        invariant
            k <= exits.len(), graph_wf(nodes@, edges@, next_id), 1 <= lid < next_id, ev == exits_view(exits@),
            exits_ok(ev, next_id),
            edges_view(edges@) == e0 + next_edges(ev.take(k as int), lid),
        decreases exits.len() - k,
    {
        assert(ev[k as int] == exits@[k as int]@);
        let ghost before = edges_view(edges@);
        edges.push(Edge { from: exits[k].node_id, to: lid, label: Some(String::from_str("next")), back_edge: false });
        assert(edges_view(edges@) =~= before.push(edges@.last()@));
        k += 1;
        assert(next_edges(ev.take(k as int), lid) =~= next_edges(ev.take(k - 1), lid).push(edges@.last()@));
    }
    assert(ev.take(exits.len() as int) =~= ev);
}

fn prefixed(p: &str, t: &String) -> (r: Vec<char>)
    ensures r@ == p@ + t@,
{
    let mut v = chars_of(p);
    append_chars(&mut v, &chars_of(t.as_str()));
    v
}

/// Walks the statements (`ow_list`), adding their nodes and edges; returns
/// the exits of the block.
pub fn walk_block(
    stmts: &[AstNode],
    incoming: Vec<Exit>,
    lane: i32,
    nodes: &mut Vec<Node>,
    edges: &mut Vec<Edge>,
    next_id: &mut usize,
) -> (r: Vec<Exit>)
    requires ow_pre(old(nodes)@, old(edges)@, *old(next_id), l_size(asts_v(stmts@, stmts@.len() as int), stmts@.len() as int), incoming@),
    ensures
        ow_post(*old(next_id), final(nodes)@, final(edges)@, *final(next_id),
            l_size(asts_v(stmts@, stmts@.len() as int), stmts@.len() as int), r@),
        (gs3(final(nodes)@, final(edges)@, *final(next_id)), exits_view(r@))
            == ow_list(gs3(old(nodes)@, old(edges)@, *old(next_id)), asts_v(stmts@, stmts@.len() as int),
                stmts@.len() as int, exits_view(incoming@), lane),
    decreases stmts@, 1int,
{
    let ghost s = asts_v(stmts@, stmts@.len() as int);
    let ghost n0 = *next_id;
    let ghost g0 = gs3(nodes@, edges@, *next_id);
    proof { lemma_asts_v_len(stmts@, stmts@.len() as int); lemma_l_size_nonneg(s, s.len() as int); }
    let mut cur = incoming;
    let mut k: usize = 0;
    while k < stmts.len()
        invariant
            k <= stmts@.len(), s == asts_v(stmts@, stmts@.len() as int), s.len() == stmts@.len(),
            graph_wf(nodes@, edges@, *next_id), exits_ok(exits_view(cur@), *next_id),
            n0 <= *next_id <= n0 + l_size(s, k as int),
            n0 + l_size(s, s.len() as int) < usize::MAX,
            ow_list(g0, s, k as int, exits_view(incoming@), lane) == (gs3(nodes@, edges@, *next_id), exits_view(cur@)),
        decreases stmts@.len() - k,
    {
        proof {
            lemma_asts_v_index(stmts@, stmts@.len() as int, k as int);
            lemma_l_size_mono(s, k + 1, s.len() as int);
            lemma_l_size_nonneg(s, k as int);
        }
        assert(decreases_to!(stmts@ => stmts@[k as int]));
        cur = walk_stmt(&stmts[k], cur, lane, nodes, edges, next_id);
        k += 1;
    }
    cur
}


fn walk_arms(
    brs: &Vec<IfBranch>,
    did: usize,
    lane: i32,
    sw: bool,
    nodes: &mut Vec<Node>,
    edges: &mut Vec<Edge>,
    next_id: &mut usize,
) -> (r: Vec<Exit>)
    requires
        graph_wf(old(nodes)@, old(edges)@, *old(next_id)), 1 <= did < *old(next_id),
        *old(next_id) + b_size(br_v(*brs), brs@.len() as int) < usize::MAX,
    ensures
        graph_wf(final(nodes)@, final(edges)@, *final(next_id)),
        *old(next_id) <= *final(next_id) <= *old(next_id) + b_size(br_v(*brs), brs@.len() as int),
        exits_ok(exits_view(r@), *final(next_id)),
        (gs3(final(nodes)@, final(edges)@, *final(next_id)), exits_view(r@))
            == ow_branches(gs3(old(nodes)@, old(edges)@, *old(next_id)), br_v(*brs), brs@.len() as int, did, lane, sw),
    decreases brs@, 2int,
{
    let ghost bv = br_v(*brs);
    let ghost n1 = *next_id;
    let ghost g2 = gs3(nodes@, edges@, *next_id);
    proof {
        lemma_branches_v_len(brs@, brs@.len() as int);
        lemma_b_size_nonneg(bv, bv.len() as int);
    }
    let n = brs.len();
    let mut out: Vec<Exit> = Vec::new();
    assert(exits_view(out@) =~= Seq::<ExitV>::empty());
    let mut j: usize = 0;
    while j < n
        invariant
            j <= n, n == brs@.len(), bv == br_v(*brs), bv.len() == brs@.len(),
            graph_wf(nodes@, edges@, *next_id), exits_ok(exits_view(out@), *next_id), 1 <= did < *next_id,
            n1 <= *next_id <= n1 + b_size(bv, j as int),
            n1 + b_size(bv, bv.len() as int) < usize::MAX,
            ow_branches(g2, bv, j as int, did, lane, sw) == (gs3(nodes@, edges@, *next_id), exits_view(out@)),
        decreases n - j,
    {
        proof {
            lemma_branches_v_index(brs@, brs@.len() as int, j as int);
            lemma_b_size_branch(bv, bv.len() as int, j as int);
            lemma_b_size_branch(bv, j + 1, j as int);
            lemma_asts_v_len(brs@[j as int].body@, brs@[j as int].body@.len() as int);
            lemma_l_size_nonneg(bv[j as int].1, bv[j as int].1.len() as int);
        }
        let blane: i32 = if sw {
            lane.wrapping_add(j as i32).wrapping_sub((n as i32) / 2)
        } else if j == 0 {
            lane.wrapping_sub(1)
        } else {
            lane.wrapping_add(j as i32).wrapping_sub(1)
        };
        assert(blane == arm_lane(lane, j as int, bv.len() as int, sw));
        let label = if sw { prefixed("case ", &brs[j].cond) } else if j == 0 { chars_of("yes") } else { chars_of("elseif") };
        assert(label@ == arm_label(bv, j as int, sw));
        let ghost n_before = *next_id;
        if brs[j].body.len() == 0 {
            let one = exit_owned(did, &label);
            proof { lemma_exits_ok_concat(exits_view(out@), exits_view(one@), *next_id); }
            append_exits(&mut out, one);
        } else {
            assert(decreases_to!(brs@ => brs@[j as int]));
            assert(decreases_to!(brs@[j as int] => brs@[j as int].body));
            assert(decreases_to!(brs@[j as int].body => brs@[j as int].body@));
            let o = walk_block(brs[j].body.as_slice(), exit_owned(did, &label), blane, nodes, edges, next_id);
            proof {
                lemma_exits_ok_mono(exits_view(out@), n_before, *next_id);
                lemma_exits_ok_concat(exits_view(out@), exits_view(o@), *next_id);
            }
            append_exits(&mut out, o);
        }
        j += 1;
    }
    out
}

fn walk_stmt(
    st: &AstNode,
    cur: Vec<Exit>,
    lane: i32,
    nodes: &mut Vec<Node>,
    edges: &mut Vec<Edge>,
    next_id: &mut usize,
) -> (r: Vec<Exit>)
    requires ow_pre(old(nodes)@, old(edges)@, *old(next_id), a_size(ast_v(*st)), cur@),
    ensures
        ow_post(*old(next_id), final(nodes)@, final(edges)@, *final(next_id), a_size(ast_v(*st)), r@),
        (gs3(final(nodes)@, final(edges)@, *final(next_id)), exits_view(r@))
            == ow_stmt(gs3(old(nodes)@, old(edges)@, *old(next_id)), ast_v(*st), exits_view(cur@), lane),
    decreases *st, 0int,
{
    match st {
        AstNode::Process { text, line_start, line_end } => {
            let nid = add_node_wf(nodes, edges, next_id, Shape::Process, text.clone(), Some(*line_start), Some(*line_end), lane);
            connect_wf(nodes, edges, *next_id, &cur, nid);
            exit_bare(nid)
        },
        AstNode::Decision { text, line_start, line_end } => {
            let did = add_node_wf(nodes, edges, next_id, Shape::Decision, text.clone(), Some(*line_start), Some(*line_end), lane);
            connect_wf(nodes, edges, *next_id, &cur, did);
            exit_bare(did)
        },
        AstNode::Loop { loop_kind, header, line_start, line_end, body } => {
            proof { lemma_asts_v_len(body@, body@.len() as int); lemma_l_size_nonneg(list_v(*body), body@.len() as int); }
            let mut t = chars_of(kind_str(*loop_kind));
            append_chars(&mut t, &chars_of(" "));
            append_chars(&mut t, &chars_of(header.as_str()));
            let lt = trim_vec(&t);
            let lid = add_node_wf(nodes, edges, next_id, Shape::Loop, string_of(&lt), Some(*line_start), Some(*line_end), lane);
            connect_wf(nodes, edges, *next_id, &cur, lid);
            proof {
                assert(decreases_to!(*st => (*st)->Loop_body));
                assert(decreases_to!(*body => body@));
            }
            let body_out = walk_block(body.as_slice(), exit_with(lid, "enter"), lane, nodes, edges, next_id);
            next_edges_wf(nodes, edges, *next_id, &body_out, lid);
            exit_with(lid, "done")
        },
        AstNode::If { cond, line_start, line_end, branches, else_body } => {
            let ghost bv = br_v(*branches);
            proof {
                lemma_branches_v_len(branches@, branches@.len() as int);
                lemma_b_size_nonneg(bv, bv.len() as int);
                match else_body {
                    Some(d) => { lemma_asts_v_len(d@, d@.len() as int); lemma_l_size_nonneg(list_v(*d), d@.len() as int); },
                    None => {},
                }
                assert(a_size(ast_v(*st)) >= 2 + b_size(bv, bv.len() as int));
            }
            let dt = trim_vec(&prefixed("if ", cond));
            let did = add_node_wf(nodes, edges, next_id, Shape::Decision, string_of(&dt), Some(*line_start), Some(*line_end), lane);
            connect_wf(nodes, edges, *next_id, &cur, did);
            proof {
                assert(decreases_to!(*st => (*st)->If_branches));
                assert(decreases_to!(*branches => branches@));
            }
            let mut out = walk_arms(branches, did, lane, false, nodes, edges, next_id);
            let ghost n2 = *next_id;
            match else_body {
                Some(d) => {
                    if d.len() == 0 {
                        let one = exit_with(did, "else");
                        proof { lemma_exits_ok_concat(exits_view(out@), exits_view(one@), *next_id); }
                        append_exits(&mut out, one);
                    } else {
                        proof {
                            assert(decreases_to!(*st => (*st)->If_else_body));
                            assert(decreases_to!((*st)->If_else_body => (*st)->If_else_body->0));
                            assert(decreases_to!(*d => d@));
                        }
                        let e = walk_block(d.as_slice(), exit_with(did, "else"), lane.wrapping_add(1), nodes, edges, next_id);
                        proof {
                            lemma_exits_ok_mono(exits_view(out@), n2, *next_id);
                            lemma_exits_ok_concat(exits_view(out@), exits_view(e@), *next_id);
                        }
                        append_exits(&mut out, e);
                    }
                },
                None => {
                    let one = exit_with(did, "no");
                    proof { lemma_exits_ok_concat(exits_view(out@), exits_view(one@), *next_id); }
                    append_exits(&mut out, one);
                },
            }
            out
        },
        AstNode::Switch { expr, line_start, line_end, cases, otherwise } => {
            let ghost bv = br_v(*cases);
            proof {
                lemma_branches_v_len(cases@, cases@.len() as int);
                lemma_b_size_nonneg(bv, bv.len() as int);
                match otherwise {
                    Some(d) => { lemma_asts_v_len(d@, d@.len() as int); lemma_l_size_nonneg(list_v(*d), d@.len() as int); },
                    None => {},
                }
                assert(a_size(ast_v(*st)) >= 2 + b_size(bv, bv.len() as int));
            }
            let dt = trim_vec(&prefixed("switch ", expr));
            let did = add_node_wf(nodes, edges, next_id, Shape::Decision, string_of(&dt), Some(*line_start), Some(*line_end), lane);
            connect_wf(nodes, edges, *next_id, &cur, did);
            proof {
                assert(decreases_to!(*st => (*st)->Switch_cases));
                assert(decreases_to!(*cases => cases@));
            }
            let mut out = walk_arms(cases, did, lane, true, nodes, edges, next_id);
            let ghost n2 = *next_id;
            match otherwise {
                Some(d) => {
                    if d.len() == 0 {
                        let one = exit_with(did, "otherwise");
                        proof { lemma_exits_ok_concat(exits_view(out@), exits_view(one@), *next_id); }
                        append_exits(&mut out, one);
                    } else {
                        proof {
                            assert(decreases_to!(*st => (*st)->Switch_otherwise));
                            assert(decreases_to!((*st)->Switch_otherwise => (*st)->Switch_otherwise->0));
                            assert(decreases_to!(*d => d@));
                        }
                        let e = walk_block(d.as_slice(), exit_with(did, "otherwise"), lane.wrapping_add(1), nodes, edges, next_id);
                        proof {
                            lemma_exits_ok_mono(exits_view(out@), n2, *next_id);
                            lemma_exits_ok_concat(exits_view(out@), exits_view(e@), *next_id);
                        }
                        append_exits(&mut out, e);
                    }
                },
                None => {},
            }
            if out.len() == 0 {
                return exit_bare(did);
            }
            out
        },
    }
}


pub open spec fn cap_at(x: int, cap: int) -> int {
    if x < cap { x } else { cap }
}

/// The size of the statements (`l_size`), or `cap` if it is at least `cap`.
fn size_capped(stmts: &[AstNode], cap: usize) -> (r: usize)
    ensures r == cap_at(l_size(asts_v(stmts@, stmts@.len() as int), stmts@.len() as int), cap as int),
    decreases stmts@, 1int,
{
    let ghost s = asts_v(stmts@, stmts@.len() as int);
    proof { lemma_asts_v_len(stmts@, stmts@.len() as int); }
    let mut total: usize = 0;
    let mut k: usize = 0;
    while k < stmts.len()
        invariant
            k <= stmts@.len(), s == asts_v(stmts@, stmts@.len() as int), s.len() == stmts@.len(),
            total == cap_at(l_size(s, k as int), cap as int),
        decreases stmts@.len() - k,
    {
        proof {
            lemma_asts_v_index(stmts@, stmts@.len() as int, k as int);
            lemma_l_size_nonneg(s, k as int);
            lemma_a_size_pos(s[k as int]);
        }
        assert(decreases_to!(stmts@ => stmts@[k as int]));
        let one = stmt_size_capped(&stmts[k], cap);
        total = if total >= cap || one >= cap - total { cap } else { total + one };
        k += 1;
    }
    total
}

fn arms_size_capped(brs: &Vec<IfBranch>, cap: usize) -> (r: usize)
    ensures r == cap_at(b_size(br_v(*brs), brs@.len() as int), cap as int),
    decreases brs@, 2int,
{
    let ghost bv = br_v(*brs);
    proof { lemma_branches_v_len(brs@, brs@.len() as int); }
    let mut total: usize = 0;
    let mut j: usize = 0;
    while j < brs.len()
        invariant
            j <= brs@.len(), bv == br_v(*brs), bv.len() == brs@.len(),
            total == cap_at(b_size(bv, j as int), cap as int),
        decreases brs@.len() - j,
    {
        proof {
            lemma_branches_v_index(brs@, brs@.len() as int, j as int);
            lemma_b_size_nonneg(bv, j as int);
            lemma_l_size_nonneg(bv[j as int].1, bv[j as int].1.len() as int);
            lemma_asts_v_len(brs@[j as int].body@, brs@[j as int].body@.len() as int);
        }
        assert(decreases_to!(brs@ => brs@[j as int]));
        assert(decreases_to!(brs@[j as int] => brs@[j as int].body));
        assert(decreases_to!(brs@[j as int].body => brs@[j as int].body@));
        let b = size_capped(brs[j].body.as_slice(), cap);
        total = if total >= cap || b >= cap - total || b + 1 >= cap - total { cap } else { total + b + 1 };
        j += 1;
    }
    total
}

fn opt_size_capped(d: &Option<Vec<AstNode>>, cap: usize) -> (r: usize)
    ensures r == cap_at(match opt_list_v(*d) { Some(x) => 1 + l_size(x, x.len() as int), None => 1 }, cap as int),
    decreases *d, 3int,
{
    match d {
        Some(v) => {
            proof {
                lemma_asts_v_len(v@, v@.len() as int);
                lemma_l_size_nonneg(list_v(*v), v@.len() as int);
            }
            assert(decreases_to!(*d => (*d)->0));
            assert(decreases_to!(*v => v@));
            let b = size_capped(v.as_slice(), cap);
            if cap < 1 || b >= cap - 1 { cap } else { b + 1 }
        },
        None => if cap <= 1 { cap } else { 1 },
    }
}

fn stmt_size_capped(st: &AstNode, cap: usize) -> (r: usize)
    ensures r == cap_at(a_size(ast_v(*st)), cap as int),
    decreases *st, 0int,
{
    proof { lemma_a_size_pos(ast_v(*st)); }
    match st {
        AstNode::Process { .. } => if cap <= 1 { cap } else { 1 },
        AstNode::Decision { .. } => if cap <= 1 { cap } else { 1 },
        AstNode::Loop { body, .. } => {
            proof {
                assert(decreases_to!(*st => (*st)->Loop_body));
                assert(decreases_to!(*body => body@));
                lemma_l_size_nonneg(list_v(*body), body@.len() as int);
                lemma_asts_v_len(body@, body@.len() as int);
            }
            let b = size_capped(body.as_slice(), cap);
            if cap < 1 || b >= cap - 1 { cap } else { b + 1 }
        },
        AstNode::If { branches, else_body, .. } => {
            proof {
                assert(decreases_to!(*st => (*st)->If_branches));
                assert(decreases_to!(*branches => branches@));
                assert(decreases_to!(*st => (*st)->If_else_body));
                lemma_branches_v_len(branches@, branches@.len() as int);
                lemma_b_size_nonneg(br_v(*branches), branches@.len() as int);
                match else_body {
                    Some(d) => { lemma_asts_v_len(d@, d@.len() as int); lemma_l_size_nonneg(list_v(*d), d@.len() as int); },
                    None => {},
                }
            }
            let b = arms_size_capped(branches, cap);
            let e = opt_size_capped(else_body, cap);
            if cap < 1 || b >= cap - 1 || e >= cap - 1 - b { cap } else { 1 + b + e }
        },
        AstNode::Switch { cases, otherwise, .. } => {
            proof {
                assert(decreases_to!(*st => (*st)->Switch_cases));
                assert(decreases_to!(*cases => cases@));
                assert(decreases_to!(*st => (*st)->Switch_otherwise));
                lemma_branches_v_len(cases@, cases@.len() as int);
                lemma_b_size_nonneg(br_v(*cases), cases@.len() as int);
                match otherwise {
                    Some(d) => { lemma_asts_v_len(d@, d@.len() as int); lemma_l_size_nonneg(list_v(*d), d@.len() as int); },
                    None => {},
                }
            }
            let b = arms_size_capped(cases, cap);
            let e = opt_size_capped(otherwise, cap);
            if cap < 1 || b >= cap - 1 || e >= cap - 1 - b { cap } else { 1 + b + e }
        },
    }
}

/// The graph before levels: a Start node, the walk of the tree, and an
/// End node that all exits flow into; also the End node's id.
pub open spec fn spec_octave_built(ast: Seq<AstV>) -> (GState, usize) {
    let g0 = GState { nodes: Seq::empty(), edges: Seq::empty(), next_id: 1 };
    let (g1, start) = o_add(g0, Shape::Terminator, "Start"@, Some(1usize), Some(1usize), 0);
    let w = ow_list(g1, ast, ast.len() as int, bare_exit(start), 0);
    let (g3, end) = o_add(w.0, Shape::Terminator, "End"@, None, None, 0);
    (g_connect(g3, w.1, end), end)
}

proof fn lemma_add_connect_grows(g: GState, shape: Shape, text: Seq<char>, ls: Option<usize>, le: Option<usize>, lane: i32, cur: Seq<ExitV>)
    requires 0 <= g.next_id,
    ensures ({
        let (g1, id) = o_add(g, shape, text, ls, le, lane);
        grows(g, g1) && grows(g, g_connect(g1, cur, id)) && (g.next_id <= usize::MAX ==> id == g.next_id)
            && g_connect(g1, cur, id).next_id == g.next_id + 1
    }),
{
    let (g1, id) = o_add(g, shape, text, ls, le, lane);
    assert(g1.nodes.take(g.nodes.len() as int) =~= g.nodes);
    assert(g1.edges =~= g.edges);
    let g2 = g_connect(g1, cur, id);
    assert(g2.edges.take(g.edges.len() as int) =~= g.edges);
    assert forall|j: int| g2.next_id <= usize::MAX + 1 && g.edges.len() <= j < g2.edges.len() implies (#[trigger] g2.edges[j]).to >= g.next_id by {
        assert(g2.edges[j] == spec_connect_edges(cur, id, None)[j - g.edges.len()]);
    }
    lemma_grows_refl(g);
}

/// The walk of one statement only adds to the graph, and always leaves
/// by at least one exit.
pub proof fn lemma_ow_stmt(g: GState, a: AstV, cur: Seq<ExitV>, lane: i32)
    requires 0 <= g.next_id,
    ensures grows(g, ow_stmt(g, a, cur, lane).0), ow_stmt(g, a, cur, lane).1.len() > 0,
    decreases a, 0int,
{
    match a {
        AstV::Process { text, line_start, line_end } => {
            lemma_add_connect_grows(g, Shape::Process, text, Some(line_start), Some(line_end), lane, cur);
        },
        AstV::Decision { text, line_start, line_end } => {
            lemma_add_connect_grows(g, Shape::Decision, text, Some(line_start), Some(line_end), lane, cur);
        },
        AstV::Loop { loop_kind, header, line_start, line_end, body } => {
            let t = spec_trim(kind_name(loop_kind) + " "@ + header);
            lemma_add_connect_grows(g, Shape::Loop, t, Some(line_start), Some(line_end), lane, cur);
            let (g1, lid) = o_add(g, Shape::Loop, t, Some(line_start), Some(line_end), lane);
            let g2 = g_connect(g1, cur, lid);
            let b = ow_list(g2, body, body.len() as int, one_exit(lid, "enter"@), lane);
            lemma_ow_list(g2, body, body.len() as int, one_exit(lid, "enter"@), lane);
            lemma_grows_trans(g, g2, b.0);
            let r = GState { edges: b.0.edges + next_edges(b.1, lid), ..b.0 };
            assert forall|j: int| r.next_id <= usize::MAX + 1 && g.edges.len() <= j < r.edges.len() implies (#[trigger] r.edges[j]).to >= g.next_id by {
                if j < b.0.edges.len() {
                    assert(r.edges[j] == b.0.edges[j]);
                } else {
                    assert(r.edges[j] == next_edges(b.1, lid)[j - b.0.edges.len()]);
                }
            }
            assert(r.nodes.take(g.nodes.len() as int) =~= g.nodes) by {
                assert forall|i: int| 0 <= i < g.nodes.len() implies r.nodes[i] == g.nodes[i] by {
                    assert(b.0.nodes.take(g.nodes.len() as int)[i] == g.nodes[i]);
                }
            }
            assert(r.edges.take(g.edges.len() as int) =~= g.edges) by {
                assert forall|i: int| 0 <= i < g.edges.len() implies r.edges[i] == g.edges[i] by {
                    assert(b.0.edges.take(g.edges.len() as int)[i] == g.edges[i]);
                }
            }
        },
        AstV::If { cond, line_start, line_end, branches, else_body } => {
            let t = spec_trim("if "@ + cond);
            lemma_add_connect_grows(g, Shape::Decision, t, Some(line_start), Some(line_end), lane, cur);
            let (g1, did) = o_add(g, Shape::Decision, t, Some(line_start), Some(line_end), lane);
            let g2 = g_connect(g1, cur, did);
            let r = ow_branches(g2, branches, branches.len() as int, did, lane, false);
            lemma_ow_branches(g2, branches, branches.len() as int, did, lane, false);
            lemma_grows_trans(g, g2, r.0);
            match else_body {
                Some(d) => if d.len() != 0 {
                    lemma_ow_list(r.0, d, d.len() as int, one_exit(did, "else"@), lane.wrapping_add(1));
                    lemma_grows_trans(g, r.0, ow_list(r.0, d, d.len() as int, one_exit(did, "else"@), lane.wrapping_add(1)).0);
                },
                None => {},
            }
        },
        AstV::Switch { expr, line_start, line_end, cases, otherwise } => {
            let t = spec_trim("switch "@ + expr);
            lemma_add_connect_grows(g, Shape::Decision, t, Some(line_start), Some(line_end), lane, cur);
            let (g1, did) = o_add(g, Shape::Decision, t, Some(line_start), Some(line_end), lane);
            let g2 = g_connect(g1, cur, did);
            let r = ow_branches(g2, cases, cases.len() as int, did, lane, true);
            lemma_ow_branches(g2, cases, cases.len() as int, did, lane, true);
            lemma_grows_trans(g, g2, r.0);
            match otherwise {
                Some(d) => if d.len() != 0 {
                    lemma_ow_list(r.0, d, d.len() as int, one_exit(did, "otherwise"@), lane.wrapping_add(1));
                    lemma_grows_trans(g, r.0, ow_list(r.0, d, d.len() as int, one_exit(did, "otherwise"@), lane.wrapping_add(1)).0);
                },
                None => {},
            }
        },
    }
}

/// Walking statements only adds to the graph; exits flowing in leave by
/// at least one exit.
pub proof fn lemma_ow_list(g: GState, s: Seq<AstV>, k: int, cur: Seq<ExitV>, lane: i32)
    requires 0 <= g.next_id,
    ensures
        grows(g, ow_list(g, s, k, cur, lane).0),
        cur.len() > 0 ==> ow_list(g, s, k, cur, lane).1.len() > 0,
    decreases s, k,
{
    if k <= 0 || k > s.len() {
        lemma_grows_refl(g);
    } else {
        lemma_ow_list(g, s, k - 1, cur, lane);
        let r = ow_list(g, s, k - 1, cur, lane);
        assert(decreases_to!(s => s[k - 1]));
        lemma_ow_stmt(r.0, s[k - 1], r.1, lane);
        lemma_grows_trans(g, r.0, ow_stmt(r.0, s[k - 1], r.1, lane).0);
    }
}

pub proof fn lemma_ow_branches(g: GState, b: Seq<BrV>, k: int, did: usize, lane: i32, sw: bool)
    requires 0 <= g.next_id,
    ensures grows(g, ow_branches(g, b, k, did, lane, sw).0),
    decreases b, k,
{
    if k <= 0 || k > b.len() {
        lemma_grows_refl(g);
    } else {
        lemma_ow_branches(g, b, k - 1, did, lane, sw);
        let r = ow_branches(g, b, k - 1, did, lane, sw);
        let body = b[k - 1].1;
        if body.len() != 0 {
            let lbl = arm_label(b, k - 1, sw);
            assert(decreases_to!(b => b[k - 1]));
            assert(decreases_to!(b[k - 1] => b[k - 1].1));
            lemma_ow_list(r.0, body, body.len() as int, one_exit(did, lbl), arm_lane(lane, k - 1, b.len() as int, sw));
            lemma_grows_trans(g, r.0, ow_list(r.0, body, body.len() as int, one_exit(did, lbl), arm_lane(lane, k - 1, b.len() as int, sw)).0);
        }
    }
}

/// Builds the flow graph of a tree (see `spec_octave_built`): returns the
/// nodes, the edges and the ids of the Start and End nodes.
pub fn build_graph(ast: &[AstNode]) -> (r: (Vec<Node>, Vec<Edge>, usize, usize))
    requires l_size(asts_v(ast@, ast@.len() as int), ast@.len() as int) < usize::MAX - 2,
    ensures
        graph_wf(r.0@, r.1@, (r.0@.len() + 1) as usize),
        gs3(r.0@, r.1@, (r.0@.len() + 1) as usize) == spec_octave_built(asts_v(ast@, ast@.len() as int)).0,
        r.3 == spec_octave_built(asts_v(ast@, ast@.len() as int)).1,
        r.2 == 1, r.3 == r.0@.len(),
        r.0@[0]@.shape == Shape::Terminator && r.0@[0]@.text == "Start"@,
        r.0@.last()@.shape == Shape::Terminator && r.0@.last()@.text == "End"@,
        forall|j: int| 0 <= j < r.1@.len() ==> (#[trigger] r.1@[j]).to != r.2,
        exists|j: int| 0 <= j < r.1@.len() && (#[trigger] r.1@[j]).to == r.3,
{
    let ghost av = asts_v(ast@, ast@.len() as int);
    let mut nodes: Vec<Node> = Vec::new();
    let mut edges: Vec<Edge> = Vec::new();
    let mut next_id: usize = 1;
    let ghost g0 = GState { nodes: Seq::empty(), edges: Seq::empty(), next_id: 1 };
    assert(gs3(nodes@, edges@, next_id) =~= g0) by {
        assert(nodes_view(nodes@) =~= Seq::<NodeView>::empty());
        assert(edges_view(edges@) =~= Seq::<EdgeView>::empty());
    }
    proof { lemma_asts_v_len(ast@, ast@.len() as int); lemma_l_size_nonneg(av, av.len() as int); }
    let start = add_node_wf(&mut nodes, &edges, &mut next_id, Shape::Terminator, String::from_str("Start"), Some(1), Some(1), 0);
    let ghost g1 = gs3(nodes@, edges@, next_id);
    assert(g1 == o_add(g0, Shape::Terminator, "Start"@, Some(1usize), Some(1usize), 0).0);
    let exits = walk_block(ast, exit_bare(start), 0, &mut nodes, &mut edges, &mut next_id);
    let ghost w = ow_list(g1, av, av.len() as int, bare_exit(start), 0);
    assert(gs3(nodes@, edges@, next_id) == w.0 && exits_view(exits@) == w.1);
    let end = add_node_wf(&mut nodes, &edges, &mut next_id, Shape::Terminator, String::from_str("End"), None, None, 0);
    assert(gs3(nodes@, edges@, next_id) == o_add(w.0, Shape::Terminator, "End"@, None, None, 0).0);
    connect_wf(&nodes, &mut edges, next_id, &exits, end);
    proof {
        lemma_ow_list(g1, av, av.len() as int, bare_exit(start), 0);
        let b = spec_octave_built(av).0;
        let g3 = o_add(w.0, Shape::Terminator, "End"@, None, None, 0).0;
        assert(b == gs3(nodes@, edges@, next_id));
        assert(end == spec_octave_built(av).1);
        assert(b.edges == w.0.edges + spec_connect_edges(w.1, end, None));
        assert(g1.next_id == 2 && start == 1);
        assert(w.0.next_id + 1 == b.next_id);
        assert(end as int == w.0.next_id);
        assert(w.0.next_id <= usize::MAX + 1);
        assert(nodes_view(nodes@)[0] == nodes@[0]@);
        assert(w.0.nodes.take(1)[0] == g1.nodes[0]);
        assert(nodes_view(nodes@)[nodes@.len() - 1] == nodes@.last()@);
        assert forall|j: int| 0 <= j < edges@.len() implies (#[trigger] edges@[j]).to != start by {
            assert(edges_view(edges@)[j] == edges@[j]@);
            if j < w.0.edges.len() {
                assert(b.edges[j] == w.0.edges[j]);
                assert(g1.edges.len() == 0);
                assert(w.0.edges[j].to >= g1.next_id);
            } else {
                assert(b.edges[j] == spec_connect_edges(w.1, end, None)[j - w.0.edges.len()]);
            }
        }
        let j = w.0.edges.len() as int;
        assert(w.1.len() > 0);
        assert(b.edges[j] == spec_connect_edges(w.1, end, None)[0]);
        assert(edges_view(edges@)[j] == edges@[j]@);
        assert(edges@[j].to == end);
    }
    (nodes, edges, start, end)
}

/// Assigns levels by source line rank, three ranks to a level, and marks
/// back edges.
pub fn assign_levels(nodes: &mut Vec<Node>, edges: &mut Vec<Edge>, start_id: usize, end_id: usize)
    requires
        graph_wf(old(nodes)@, old(edges)@, (old(nodes)@.len() + 1) as usize),
        levels_fit(nodes_view(old(nodes)@), edges_view(old(edges)@), start_id, end_id, 3),
    ensures ({
        let lv = spec_final_levels(nodes_view(old(nodes)@), edges_view(old(edges)@), start_id, end_id, 3);
        &&& final(nodes)@.len() == old(nodes)@.len()
        &&& final(edges)@.len() == old(edges)@.len()
        &&& forall|k: int| 0 <= k < final(nodes)@.len() ==>
            (#[trigger] final(nodes)@[k])@ == NodeView { level: Some(lv[k] as i32), ..old(nodes)@[k]@ }
            && lv[k] == final(nodes)@[k].level->0
        &&& forall|k: int| 0 <= k < final(edges)@.len() ==>
            (#[trigger] final(edges)@[k])@ == EdgeView {
                back_edge: is_next(old(edges)@[k]@.label) || lv[old(edges)@[k].to - 1] <= lv[old(edges)@[k].from - 1],
                ..old(edges)@[k]@
            }
    }),
{
    let _ = assign_levels_bucketed(nodes, edges, start_id, end_id, 3);
}

/// Where the graph of `input` is written when no output is given.
pub fn default_output_path(input: &str) -> (r: String)
    ensures r@ == input@ + ".graph.json"@,
{
    let mut v = chars_of(input);
    append_chars(&mut v, &chars_of(".graph.json"));
    string_of(&v)
}

/// The simplified syntax tree of an Octave source.
pub open spec fn spec_octave_ast(src: Seq<char>) -> Seq<AstV> {
    let ls = split_lines(src);
    let a = pb(spec_lex(ls, ls.len() as int), 0, Seq::empty(), Seq::empty(), Seq::empty(), Seq::empty(), Seq::empty()).0;
    simp_list(a, a.len() as int)
}

proof fn lemma_lines_count(ls: Seq<Seq<char>>, k: int)
    requires 0 <= k <= ls.len(),
    ensures crate::text::lines_total(ls, k) >= k,
    decreases k,
{
    if k > 0 {
        lemma_lines_count(ls, k - 1);
    }
}

/// The flow graph of an Octave source: lexed, parsed, simplified, walked
/// and levelled. `GraphTooLarge` where the levels do not fit in `i32`
/// (`levels_fit`), or where the tree has more statements than `usize` can
/// number node ids for.
pub fn octave_flow_graph(src: &str) -> (r: Result<FlowGraph, ExtractError>)
    requires src@.len() <= 0x0800_0000,
    ensures ({
        let ast = spec_octave_ast(src@);
        let (b, end) = spec_octave_built(ast);
        let lv = spec_final_levels(b.nodes, b.edges, 1, end, 3);
        &&& (r is Ok <==> l_size(ast, ast.len() as int) < usize::MAX - 2 && levels_fit(b.nodes, b.edges, 1, end, 3))
        &&& (r is Ok ==> nodes_view(r->Ok_0.nodes@) == levelled_nodes(b.nodes, lv)
            && edges_view(r->Ok_0.edges@) == levelled_edges(b.edges, lv)
            && r->Ok_0.start == 1 && r->Ok_0.end == end
            && forall|k: int| 0 <= k < r->Ok_0.nodes@.len() ==> lv[k] == (#[trigger] r->Ok_0.nodes@[k]).level->0)
        &&& (r is Ok ==> graph_wf(r->Ok_0.nodes@, r->Ok_0.edges@, (r->Ok_0.nodes@.len() + 1) as usize)
            && r->Ok_0.end == r->Ok_0.nodes@.len())
        &&& (r is Err ==> r->Err_0 is GraphTooLarge)
    }),
{
    let lines = lines_of(src);
    proof {
        let ls = split_lines(src@);
        crate::text::lemma_split_total(src@);
        lemma_lines_count(ls, ls.len() as int);
        assert(strs_view(lines@) == ls);
    }
    let toks = lex(lines.as_slice());
    let mut seen: Vec<String> = Vec::new();
    let stops: Vec<TokKind> = Vec::new();
    assert(strs_view(seen@) =~= Seq::<Seq<char>>::empty());
    assert(stops@ =~= Seq::<TokKind>::empty());
    let (ast0, _) = parse_block(toks.as_slice(), 0, stops.as_slice(), &mut seen);
    let ast = simplify_block(ast0.as_slice());
    proof { lemma_asts_v_len(ast@, ast@.len() as int); lemma_asts_v_len(ast0@, ast0@.len() as int); }
    assert(list_v(ast) == spec_octave_ast(src@));
    let cap: usize = usize::MAX - 2;
    let size = size_capped(ast.as_slice(), cap);
    if size >= cap {
        return Err(ExtractError::GraphTooLarge);
    }
    let (nodes, edges, start, end) = build_graph(ast.as_slice());
    finish_graph(nodes, edges, start, end, 3)
}


proof fn lemma_oc_prefix(s: Seq<char>, i: int, q: bool)
    requires 0 <= i <= s.len(),
    ensures oc(s, i, q).len() <= s.len() - i, forall|j: int| 0 <= j < oc(s, i, q).len() ==> #[trigger] oc(s, i, q)[j] == s[i + j],
    decreases s.len() - i,
{
    if i < s.len() {
        if s[i] == '\'' {
            if q && i + 1 < s.len() && s[i + 1] == '\'' {
                lemma_oc_prefix(s, i + 2, q);
            } else {
                lemma_oc_prefix(s, i + 1, !q);
            }
        } else if !(s[i] == '%' && !q) {
            lemma_oc_prefix(s, i + 1, q);
        }
    }
}

/// Removing a comment keeps the start of the line: the result of
/// `strip_comment` is always a prefix of the line.
pub proof fn lemma_strip_comment_prefix(line: Seq<char>)
    ensures seq_starts_with(line, oc(line, 0, false)),
{
    lemma_oc_prefix(line, 0, false);
    let r = oc(line, 0, false);
    assert(line.take(r.len() as int) =~= r);
}

/// No name occurs twice.
pub open spec fn no_dups(s: Seq<Seq<char>>) -> bool {
    forall|i: int, j: int| 0 <= i < j < s.len() ==> s[i] != s[j]
}

proof fn lemma_add_unique(base: Seq<Seq<char>>, items: Seq<Seq<char>>, k: int)
    requires no_dups(base), 0 <= k <= items.len(),
    ensures
        no_dups(add_unique(base, items, k)),
        forall|x: Seq<char>| #[trigger] add_unique(base, items, k).contains(x) <==> (base.contains(x) || items.take(k).contains(x)),
        add_unique(base, items, k).take(base.len() as int) == base, base.len() <= add_unique(base, items, k).len(),
    decreases k,
{
    if k > 0 {
        lemma_add_unique(base, items, k - 1);
        let b = add_unique(base, items, k - 1);
        assert(items.take(k) =~= items.take(k - 1).push(items[k - 1]));
        if !b.contains(items[k - 1]) {
            let c = b.push(items[k - 1]);
            assert forall|x: Seq<char>| #[trigger] c.contains(x) <==> (b.contains(x) || x == items[k - 1]) by {
                if c.contains(x) {
                    let w = choose|w: int| 0 <= w < c.len() && c[w] == x;
                    if w < b.len() { assert(b[w] == x); }
                }
                if b.contains(x) {
                    let w = choose|w: int| 0 <= w < b.len() && b[w] == x;
                    assert(c[w] == x);
                }
                if x == items[k - 1] { assert(c[b.len() as int] == x); }
            }
            assert(c.take(base.len() as int) =~= b.take(base.len() as int));
        }
        assert forall|x: Seq<char>| items.take(k).contains(x) <==> (items.take(k - 1).contains(x) || x == items[k - 1]) by {
            let t = items.take(k);
            if t.contains(x) {
                let w = choose|w: int| 0 <= w < t.len() && t[w] == x;
                if w < k - 1 { assert(items.take(k - 1)[w] == x); }
            }
            if items.take(k - 1).contains(x) {
                let tp = items.take(k - 1);
                let w = choose|w: int| 0 <= w < tp.len() && tp[w] == x;
                assert(t[w] == x);
            }
            if x == items[k - 1] { assert(t[k - 1] == x); }
        }
    }
}

/// The names recorded as set behave as a set: with no name twice before a
/// run is summarized, none occurs twice after it, and a name is recorded
/// afterwards exactly when it was before or, unless the run is summarized
/// as plotting or messages, the run assigns it.
pub proof fn lemma_seen_names_set(lines: Seq<Seq<char>>, seen: Seq<Seq<char>>)
    requires no_dups(seen),
    ensures ({
        let (text, after) = spec_summary(lines, seen);
        let a = spec_assigned(lines);
        let n = lines.len() as int;
        let recorded = !any_line_matches(plot_pattern(), lines, n) && a.len() > 0;
        &&& no_dups(after)
        &&& forall|x: Seq<char>| #[trigger] after.contains(x) <==> (seen.contains(x) || (recorded && a.contains(x)))
    }),
{
    let a = spec_assigned(lines);
    lemma_add_unique(seen, a, a.len() as int);
    assert(a.take(a.len() as int) =~= a);
}

} // verus!
