//! Text and label helpers of the flowchart renderer, and the default file
//! names it writes to.
use vstd::prelude::*;
use crate::geometry::{Pt, tdiv, iabs, pt_ok, path_ok, abs_i32};
use crate::text::{chars_of, string_of, append_chars, is_ws, is_whitespace_char, slice_vec, spec_trim, trim_vec, eq_vec};
use crate::octave_flow::{spec_lower, lower_vec, strs_view};

verus! {

broadcast use vstd::string::group_string_axioms;

/// The whitespace-separated words of `s` from position `i` on, `cur` being
/// the word read so far.
pub open spec fn words_from(s: Seq<char>, i: int, cur: Seq<char>) -> Seq<Seq<char>>
    decreases s.len() - i,
{
    if i < 0 || i >= s.len() {
        if cur.len() > 0 { seq![cur] } else { Seq::empty() }
    } else if is_ws(s[i]) {
        (if cur.len() > 0 { seq![cur] } else { Seq::empty() }) + words_from(s, i + 1, Seq::empty())
    } else {
        words_from(s, i + 1, cur.push(s[i]))
    }
}

/// The words of `s` (std `split_whitespace`).
pub open spec fn words(s: Seq<char>) -> Seq<Seq<char>> {
    words_from(s, 0, Seq::empty())
}

/// Splits `s` into its words; no word is longer than `s`.
pub fn split_words(s: &Vec<char>) -> (r: Vec<Vec<char>>)
    ensures
        r@.map_values(|v: Vec<char>| v@) == words(s@),
        forall|k: int| 0 <= k < r@.len() ==> (#[trigger] r@[k])@.len() <= s@.len(),
{
    let ghost target = words(s@);
    let mut out: Vec<Vec<char>> = Vec::new();
    let mut cur: Vec<char> = Vec::new();
    let mut i: usize = 0;
    assert(out@.map_values(|v: Vec<char>| v@) =~= Seq::<Seq<char>>::empty());
    while i < s.len()
        invariant
            i <= s@.len(), target == words(s@), cur@.len() <= i,
            out@.map_values(|v: Vec<char>| v@) + words_from(s@, i as int, cur@) == target,
            forall|k: int| 0 <= k < out@.len() ==> (#[trigger] out@[k])@.len() <= s@.len(),
        decreases s@.len() - i,
    {
        let c = s[i];
        let ghost o0 = out@.map_values(|v: Vec<char>| v@);
        if is_whitespace_char(c) {
            if cur.len() > 0 {
                let w = cur;
                out.push(w);
                cur = Vec::new();
                assert(out@.map_values(|v: Vec<char>| v@) =~= o0.push(w@));
            } else {
                cur = Vec::new();
            }
        } else {
            cur.push(c);
        }
        i += 1;
    }
    let ghost o0 = out@.map_values(|v: Vec<char>| v@);
    if cur.len() > 0 {
        let w = cur;
        out.push(w);
        assert(out@.map_values(|v: Vec<char>| v@) =~= o0.push(w@));
    } else {
        assert(o0 =~= o0 + words_from(s@, i as int, cur@));
    }
    out
}

/// The length of `c` in UTF-8.
pub open spec fn utf8_len(c: char) -> int {
    let u = c as u32;
    if u < 0x80 { 1 } else if u < 0x800 { 2 } else if u < 0x10000 { 3 } else { 4 }
}

/// The length of `s` in UTF-8 bytes (std `str::len`).
pub open spec fn byte_len(s: Seq<char>) -> int
    decreases s.len(),
{
    if s.len() == 0 { 0 } else { byte_len(s.drop_last()) + utf8_len(s.last()) }
}

proof fn lemma_byte_len_bound(s: Seq<char>)
    ensures s.len() <= byte_len(s) <= 4 * s.len(),
    decreases s.len(),
{
    if s.len() > 0 {
        lemma_byte_len_bound(s.drop_last());
    }
}

proof fn lemma_byte_len_concat(a: Seq<char>, b: Seq<char>)
    ensures byte_len(a + b) == byte_len(a) + byte_len(b),
    decreases b.len(),
{
    if b.len() > 0 {
        lemma_byte_len_concat(a, b.drop_last());
        assert((a + b).drop_last() =~= a + b.drop_last());
    } else {
        assert(a + b =~= a);
    }
}

fn byte_len_exec(s: &Vec<char>) -> (r: u64)
    requires s@.len() <= 0x1000_0000,
    ensures r == byte_len(s@),
{
    let mut n: u64 = 0;
    let mut i: usize = 0;
    while i < s.len()
        invariant i <= s@.len(), s@.len() <= 0x1000_0000, n == byte_len(s@.take(i as int)), n <= 4 * i,
        decreases s@.len() - i,
    {
        let u = s[i] as u32;
        let l: u64 = if u < 0x80 { 1 } else if u < 0x800 { 2 } else if u < 0x10000 { 3 } else { 4 };
        assert(s@.take(i + 1).drop_last() =~= s@.take(i as int));
        n = n + l;
        i += 1;
    }
    assert(s@.take(s@.len() as int) =~= s@);
    n
}

pub type WrapState = (Seq<Seq<char>>, Seq<char>);

/// One word added to the lines: it starts the first line, joins the
/// current line after a space when the line stays within `max` bytes, or
/// starts a new line.
pub open spec fn wrap_step(st: WrapState, w: Seq<char>, max: int) -> WrapState {
    if st.1.len() == 0 {
        (st.0, st.1 + w)
    } else if byte_len(st.1) + 1 + byte_len(w) <= max {
        (st.0, st.1 + " "@ + w)
    } else {
        (st.0.push(st.1), w)
    }
}

pub open spec fn wrap_fold(ws: Seq<Seq<char>>, k: int, max: int) -> WrapState
    decreases k,
{
    if k <= 0 || k > ws.len() { (Seq::empty(), Seq::empty()) } else { wrap_step(wrap_fold(ws, k - 1, max), ws[k - 1], max) }
}

/// The words of `text` filled greedily into lines of at most `max` bytes
/// (a longer word gets a line of its own); one empty line for no words.
pub open spec fn spec_wrap(text: Seq<char>, max: int) -> Seq<Seq<char>> {
    let ws = words(text);
    let st = wrap_fold(ws, ws.len() as int, max);
    let out = if st.1.len() > 0 { st.0.push(st.1) } else { st.0 };
    if out.len() == 0 { seq![Seq::empty()] } else { out }
}

/// Wraps `text` into lines of at most `max_chars` bytes (see `spec_wrap`).
pub fn wrap_text_approx(text: &str, max_chars: usize) -> (r: Vec<String>)
    requires text@.len() <= 0x1000_0000,
    ensures strs_view(r@) == spec_wrap(text@, max_chars as int),
{
    let tv = chars_of(text);
    let ws = split_words(&tv);
    let ghost wv = ws@.map_values(|v: Vec<char>| v@);
    let mut out: Vec<String> = Vec::new();
    let mut cur: Vec<char> = Vec::new();
    let mut cur_b: u64 = 0;
    let mut k: usize = 0;
    assert(strs_view(out@) =~= Seq::<Seq<char>>::empty());
    assert(cur@ =~= Seq::<char>::empty());
    while k < ws.len()
        invariant
            k <= ws@.len(), wv == ws@.map_values(|v: Vec<char>| v@), tv@.len() <= 0x1000_0000,
            forall|j: int| 0 <= j < ws@.len() ==> (#[trigger] ws@[j])@.len() <= tv@.len(),
            (strs_view(out@), cur@) == wrap_fold(wv, k as int, max_chars as int),
            cur_b == byte_len(cur@), cur_b <= max_chars || cur_b <= 4 * tv@.len(),
        decreases ws@.len() - k,
    {
        let w = &ws[k];
        assert(wv[k as int] == w@);
        let w_b = byte_len_exec(w);
        proof { lemma_byte_len_bound(w@); }
        if cur.len() == 0 {
            append_chars(&mut cur, w);
            proof { lemma_byte_len_concat(Seq::<char>::empty(), w@); assert(Seq::<char>::empty() + w@ =~= w@); }
            cur_b = w_b;
        } else if cur_b < max_chars as u64 && w_b <= max_chars as u64 - cur_b - 1 {
            let ghost c0 = cur@;
            cur.push(' ');
            append_chars(&mut cur, w);
            proof {
                lemma_byte_len_concat(c0, seq![' ']);
                lemma_byte_len_concat(c0 + seq![' '], w@);
                assert(c0.push(' ') =~= c0 + seq![' ']);
                assert(byte_len(seq![' ']) == 1) by {
                    assert(seq![' '].drop_last() =~= Seq::<char>::empty());
                    assert(seq![' '].last() == ' ');
                    assert(byte_len(Seq::<char>::empty()) == 0);
                    assert((' ' as u32) < 0x80);
                }
                reveal_strlit(" ");
                assert(cur@ =~= c0 + " "@ + w@);
            }
            cur_b = cur_b + 1 + w_b;
        } else {
            let ghost o0 = strs_view(out@);
            out.push(string_of(&cur));
            assert(strs_view(out@) =~= o0.push(cur@));
            cur = slice_vec(w, 0, w.len());
            assert(cur@ =~= w@);
            cur_b = w_b;
        }
        k += 1;
    }
    if cur.len() > 0 {
        let ghost o0 = strs_view(out@);
        out.push(string_of(&cur));
        assert(strs_view(out@) =~= o0.push(cur@));
    }
    if out.len() == 0 {
        out.push(String::new());
        assert(strs_view(out@) =~= seq![Seq::<char>::empty()]);
    }
    out
}

/// `s` cut to `max` characters, its end replaced by `...` when cut.
pub open spec fn spec_truncate_ellipsis(s: Seq<char>, max: int) -> Seq<char> {
    if s.len() <= max { s } else if max <= 3 { "..."@ } else { s.take(max - 3) + "..."@ }
}

pub fn truncate_ellipsis(s: &str, max_chars: usize) -> (r: String)
    ensures r@ == spec_truncate_ellipsis(s@, max_chars as int),
{
    let cs = chars_of(s);
    if cs.len() <= max_chars {
        return String::from_str(s);
    }
    if max_chars <= 3 {
        return String::from_str("...");
    }
    let mut out = slice_vec(&cs, 0, max_chars - 3);
    append_chars(&mut out, &chars_of("..."));
    assert(out@ =~= s@.take(max_chars - 3) + "..."@);
    string_of(&out)
}

/// The text drawn on an edge: none for a missing, blank or `enter` label;
/// `loop done` and `loop back` for `done` and `next` (compared trimmed and
/// in lower case); else the label as it is.
pub open spec fn spec_edge_label_text(raw: Option<Seq<char>>) -> Option<Seq<char>> {
    match raw {
        None => None,
        Some(s) => {
            let t = spec_lower(spec_trim(s));
            if t.len() == 0 || t == "enter"@ {
                None
            } else if t == "done"@ {
                Some("loop done"@)
            } else if t == "next"@ {
                Some("loop back"@)
            } else {
                Some(s)
            }
        },
    }
}

pub fn edge_label_text(raw: &Option<String>) -> (r: Option<String>)
    ensures
        match r { Some(x) => spec_edge_label_text(crate::graph::opt_view(*raw)) == Some(x@), None => spec_edge_label_text(crate::graph::opt_view(*raw)) is None },
{
    match raw {
        None => None,
        Some(s) => {
            let t = lower_vec(&trim_vec(&chars_of(s.as_str())));
            if t.len() == 0 || eq_vec(&t, &chars_of("enter")) {
                None
            } else if eq_vec(&t, &chars_of("done")) {
                Some(String::from_str("loop done"))
            } else if eq_vec(&t, &chars_of("next")) {
                Some(String::from_str("loop back"))
            } else {
                Some(s.clone())
            }
        },
    }
}

/// Where an edge label goes: a point, or a point 72% of the way along a
/// horizontal or vertical segment, which the drawing code computes.
#[derive(Debug, Clone, Copy)]
pub enum LabelAnchor {
    At(Pt),
    LateHorizontal(Pt, Pt),
    LateVertical(Pt, Pt),
}

pub open spec fn long_h(p: Seq<Pt>, i: int) -> bool {
    p[i].1 == p[i + 1].1 && iabs(p[i].0 - p[i + 1].0) >= 40
}

pub open spec fn long_v(p: Seq<Pt>, i: int) -> bool {
    p[i].0 == p[i + 1].0 && iabs(p[i].1 - p[i + 1].1) >= 36
}

/// The first segment from `i` on that is a long horizontal (`h`) or
/// vertical one.
pub open spec fn first_long(p: Seq<Pt>, i: int, h: bool) -> Option<int>
    decreases p.len() - i,
{
    if i < 0 || i + 1 >= p.len() {
        None
    } else if (h && long_h(p, i)) || (!h && long_v(p, i)) {
        Some(i)
    } else {
        first_long(p, i + 1, h)
    }
}

/// The last segment before `i` that is a long horizontal (`h`) or vertical one.
pub open spec fn last_long(p: Seq<Pt>, i: int, h: bool) -> Option<int>
    decreases i,
{
    if i <= 0 || i >= p.len() {
        None
    } else if (h && long_h(p, i - 1)) || (!h && long_v(p, i - 1)) {
        Some(i - 1)
    } else {
        last_long(p, i - 1, h)
    }
}

/// The first of the longest horizontal segments among the first `k`.
pub open spec fn longest_h(p: Seq<Pt>, k: int) -> Option<int>
    decreases k,
{
    if k <= 0 || k >= p.len() {
        None
    } else {
        let prev = longest_h(p, k - 1);
        let i = k - 1;
        if p[i].1 == p[i + 1].1 && (prev is None || iabs(p[i].0 - p[i + 1].0) > iabs(p[prev->0].0 - p[prev->0 + 1].0)) {
            Some(i)
        } else {
            prev
        }
    }
}

pub open spec fn h_mid(p: Seq<Pt>, i: int, dy: int) -> Pt {
    (tdiv(p[i].0 + p[i + 1].0, 2) as i32, (p[i].1 - dy) as i32)
}

/// Where to put an edge's label: early on a long horizontal, else a long
/// vertical segment when `prefer_early`; late on one when `prefer_late`;
/// else over the longest horizontal segment, else near the first segment.
pub open spec fn spec_pick_label_anchor(p: Seq<Pt>, early: bool, late: bool) -> LabelAnchor {
    let n = p.len() as int;
    if early && first_long(p, 0, true) is Some {
        LabelAnchor::At(h_mid(p, first_long(p, 0, true)->0, 14))
    } else if early && first_long(p, 0, false) is Some {
        let i = first_long(p, 0, false)->0;
        LabelAnchor::At(((p[i].0 + 10) as i32, (tdiv(p[i].1 + p[i + 1].1, 2) - 10) as i32))
    } else if late && last_long(p, n - 1, true) is Some {
        let i = last_long(p, n - 1, true)->0;
        LabelAnchor::LateHorizontal(p[i], p[i + 1])
    } else if late && last_long(p, n - 1, false) is Some {
        let i = last_long(p, n - 1, false)->0;
        LabelAnchor::LateVertical(p[i], p[i + 1])
    } else if longest_h(p, n - 1) is Some {
        LabelAnchor::At(h_mid(p, longest_h(p, n - 1)->0, 14))
    } else if n >= 2 {
        LabelAnchor::At(((tdiv(p[0].0 + p[1].0, 2) + 8) as i32, (tdiv(p[0].1 + p[1].1, 2) - 12) as i32))
    } else {
        LabelAnchor::At((0, 0))
    }
}

fn first_long_exec(path: &[Pt], h: bool) -> (r: Option<usize>)
    requires path_ok(path@),
    ensures match r { Some(i) => first_long(path@, 0, h) == Some(i as int) && i + 1 < path@.len(), None => first_long(path@, 0, h) is None },
{
    let n = path.len();
    let mut i: usize = 0;
    while i < n && i + 1 < n
        invariant n == path@.len(), i <= n, path_ok(path@), first_long(path@, i as int, h) == first_long(path@, 0, h),
        decreases n - i,
    {
        let a = path[i];
        let b = path[i + 1];
        assert(pt_ok(path@[i as int]) && pt_ok(path@[i + 1]));
        let hit = if h { a.1 == b.1 && abs_i32(a.0 - b.0) >= 40 } else { a.0 == b.0 && abs_i32(a.1 - b.1) >= 36 };
        if hit {
            return Some(i);
        }
        i += 1;
    }
    None
}

fn last_long_exec(path: &[Pt], h: bool) -> (r: Option<usize>)
    requires path_ok(path@),
    ensures match r {
        Some(i) => last_long(path@, path@.len() - 1, h) == Some(i as int) && i + 1 < path@.len(),
        None => last_long(path@, path@.len() - 1, h) is None,
    },
{
    let n = path.len();
    if n < 2 {
        return None;
    }
    let mut i: usize = n - 1;
    while i > 0
        invariant n == path@.len(), n >= 2, i <= n - 1, path_ok(path@),
            last_long(path@, i as int, h) == last_long(path@, n - 1, h),
        decreases i,
    {
        let a = path[i - 1];
        let b = path[i];
        assert(pt_ok(path@[i - 1]) && pt_ok(path@[i as int]));
        let hit = if h { a.1 == b.1 && abs_i32(a.0 - b.0) >= 40 } else { a.0 == b.0 && abs_i32(a.1 - b.1) >= 36 };
        if hit {
            return Some(i - 1);
        }
        i -= 1;
    }
    None
}

fn longest_h_exec(path: &[Pt]) -> (r: Option<usize>)
    requires path_ok(path@),
    ensures match r {
        Some(i) => longest_h(path@, path@.len() - 1) == Some(i as int) && i + 1 < path@.len(),
        None => longest_h(path@, path@.len() - 1) is None,
    },
{
    let n = path.len();
    if n < 2 {
        return None;
    }
    let mut best: Option<usize> = None;
    let mut best_len: i32 = -1;
    let mut k: usize = 0;
    while k + 1 < n
        invariant
            n == path@.len(), n >= 2, k + 1 <= n, path_ok(path@),
            match best { Some(b) => longest_h(path@, k as int) == Some(b as int) && b < k
                && best_len == iabs(path@[b as int].0 - path@[b + 1].0), None => longest_h(path@, k as int) is None && best_len == -1 },
        decreases n - k,
    {
        let a = path[k];
        let b = path[k + 1];
        assert(pt_ok(path@[k as int]) && pt_ok(path@[k + 1]));
        if a.1 == b.1 {
            let l = abs_i32(a.0 - b.0);
            if l > best_len {
                best_len = l;
                best = Some(k);
            }
        }
        k += 1;
    }
    best
}

/// Picks where an edge's label goes (see `spec_pick_label_anchor`).
pub fn pick_label_anchor(path: &[Pt], prefer_early: bool, prefer_late: bool) -> (r: LabelAnchor)
    requires path_ok(path@),
    ensures r == spec_pick_label_anchor(path@, prefer_early, prefer_late),
{
    let n = path.len();
    if prefer_early {
        match first_long_exec(path, true) {
            Some(i) => {
                assert(pt_ok(path@[i as int]) && pt_ok(path@[i + 1]));
                let a = path[i];
                let b = path[i + 1];
                return LabelAnchor::At(((a.0 + b.0) / 2, a.1 - 14));
            },
            None => {},
        }
        match first_long_exec(path, false) {
            Some(i) => {
                assert(pt_ok(path@[i as int]) && pt_ok(path@[i + 1]));
                let a = path[i];
                let b = path[i + 1];
                return LabelAnchor::At((a.0 + 10, (a.1 + b.1) / 2 - 10));
            },
            None => {},
        }
    }
    if prefer_late {
        match last_long_exec(path, true) {
            Some(i) => { return LabelAnchor::LateHorizontal(path[i], path[i + 1]); },
            None => {},
        }
        match last_long_exec(path, false) {
            Some(i) => { return LabelAnchor::LateVertical(path[i], path[i + 1]); },
            None => {},
        }
    }
    match longest_h_exec(path) {
        Some(i) => {
            assert(pt_ok(path@[i as int]) && pt_ok(path@[i + 1]));
            let a = path[i];
            let b = path[i + 1];
            return LabelAnchor::At(((a.0 + b.0) / 2, a.1 - 14));
        },
        None => {},
    }
    if n >= 2 {
        assert(pt_ok(path@[0]) && pt_ok(path@[1]));
        let a = path[0];
        let b = path[1];
        return LabelAnchor::At(((a.0 + b.0) / 2 + 8, (a.1 + b.1) / 2 - 12));
    }
    LabelAnchor::At((0, 0))
}

/// `name` in directory `dir`, as `Path::join` forms it for a relative name.
pub open spec fn join_path(dir: Seq<char>, name: Seq<char>) -> Seq<char> {
    if dir.len() == 0 { name } else if dir.last() == '/' { dir + name } else { dir + "/"@ + name }
}

fn join_path_exec(dir: &str, name: &Vec<char>) -> (r: String)
    ensures r@ == join_path(dir@, name@),
{
    let mut d = chars_of(dir);
    if d.len() == 0 {
        return string_of(name);
    }
    if d[d.len() - 1] != '/' {
        d.push('/');
        proof { reveal_strlit("/"); }
        assert(d@ =~= dir@ + "/"@);
    }
    append_chars(&mut d, name);
    string_of(&d)
}

pub open spec fn or_default(o: Option<Seq<char>>, d: Seq<char>) -> Seq<char> {
    match o { Some(s) => s, None => d }
}

pub open spec fn opt_str_view(o: Option<&str>) -> Option<Seq<char>> {
    match o { Some(s) => Some(s@), None => None }
}

/// The image written for a graph file whose directory is `parent` and
/// whose name without extension is `stem`: `<stem>_flowchart.png` beside
/// it (`.` and `flowchart` when they are missing).
pub fn default_png_path(parent: Option<&str>, stem: Option<&str>) -> (r: String)
    ensures r@ == join_path(or_default(opt_str_view(parent), "."@), or_default(opt_str_view(stem), "flowchart"@) + "_flowchart.png"@),
{
    let mut name = match stem { Some(s) => chars_of(s), None => chars_of("flowchart") };
    append_chars(&mut name, &chars_of("_flowchart.png"));
    match parent {
        Some(p) => join_path_exec(p, &name),
        None => join_path_exec(".", &name),
    }
}

/// The image written for a source file when no graph file is kept: named
/// as `default_png_path` names it.
pub fn default_png_path_from_input(parent: Option<&str>, stem: Option<&str>) -> (r: String)
    ensures r@ == join_path(or_default(opt_str_view(parent), "."@), or_default(opt_str_view(stem), "flowchart"@) + "_flowchart.png"@),
{
    default_png_path(parent, stem)
}

/// A sibling of an output file: `<stem>_<suffix>.<ext>` in its directory
/// (`.`, `flowchart` and `png` when they are missing).
pub fn output_with_suffix(parent: Option<&str>, stem: Option<&str>, ext: Option<&str>, suffix: &str) -> (r: String)
    ensures r@ == join_path(or_default(opt_str_view(parent), "."@),
        or_default(opt_str_view(stem), "flowchart"@) + "_"@ + suffix@ + "."@ + or_default(opt_str_view(ext), "png"@)),
{
    let mut name = match stem { Some(s) => chars_of(s), None => chars_of("flowchart") };
    append_chars(&mut name, &chars_of("_"));
    append_chars(&mut name, &chars_of(suffix));
    append_chars(&mut name, &chars_of("."));
    match ext {
        Some(e) => append_chars(&mut name, &chars_of(e)),
        None => append_chars(&mut name, &chars_of("png")),
    }
    match parent {
        Some(p) => join_path_exec(p, &name),
        None => join_path_exec(".", &name),
    }
}


/// A shortened label never exceeds its budget (three characters for a
/// budget under three), and a label that fits is kept whole.
pub proof fn lemma_truncate_fits(s: Seq<char>, max: int)
    requires max >= 0,
    ensures
        spec_truncate_ellipsis(s, max).len() <= if max < 3 { 3 } else { max },
        s.len() <= max ==> spec_truncate_ellipsis(s, max) == s,
        s.len() > max && max > 3 ==> spec_truncate_ellipsis(s, max).take(max - 3) == s.take(max - 3),
{
    reveal_strlit("...");
    if s.len() > max && max > 3 {
        assert(spec_truncate_ellipsis(s, max).take(max - 3) =~= s.take(max - 3));
    }
}

proof fn lemma_words_nonempty(s: Seq<char>, i: int, cur: Seq<char>)
    requires 0 <= i,
    ensures forall|k: int| 0 <= k < words_from(s, i, cur).len() ==> (#[trigger] words_from(s, i, cur)[k]).len() > 0,
    decreases s.len() - i,
{
    let w = words_from(s, i, cur);
    if i >= s.len() {
        if cur.len() > 0 {
            assert(w =~= seq![cur]);
        } else {
            assert(w =~= Seq::<Seq<char>>::empty());
        }
        assert forall|k: int| 0 <= k < w.len() implies (#[trigger] w[k]).len() > 0 by {
            assert(w[k] == cur);
        }
    } else if is_ws(s[i]) {
        lemma_words_nonempty(s, i + 1, Seq::empty());
        let head: Seq<Seq<char>> = if cur.len() > 0 { seq![cur] } else { Seq::empty() };
        let rest = words_from(s, i + 1, Seq::empty());
        assert(w =~= head + rest);
        assert forall|k: int| 0 <= k < w.len() implies (#[trigger] w[k]).len() > 0 by {
            if k < head.len() {
                assert(w[k] == head[k]);
                assert(head[k] == cur);
            } else {
                assert(w[k] == rest[k - head.len()]);
            }
        }
    } else {
        lemma_words_nonempty(s, i + 1, cur.push(s[i]));
        let rest = words_from(s, i + 1, cur.push(s[i]));
        assert(w == rest);
        assert forall|k: int| 0 <= k < w.len() implies (#[trigger] w[k]).len() > 0 by {
            assert(w[k] == rest[k]);
        }
    }
}

/// The lines the words have been filled into so far.
pub open spec fn wrap_lines(st: WrapState) -> Seq<Seq<char>> {
    if st.1.len() > 0 { st.0.push(st.1) } else { st.0 }
}

proof fn lemma_join_push(p: Seq<Seq<char>>, x: Seq<char>, sep: Seq<char>)
    requires p.len() > 0,
    ensures crate::text::spec_join(p.push(x), sep) == crate::text::spec_join(p, sep) + sep + x,
{
    assert(p.push(x).drop_last() =~= p);
}

proof fn lemma_wrap_invariant(ws: Seq<Seq<char>>, k: int, max: int)
    requires 0 <= k <= ws.len(), forall|j: int| 0 <= j < ws.len() ==> (#[trigger] ws[j]).len() > 0,
    ensures ({
        let st = wrap_fold(ws, k, max);
        &&& (st.1.len() == 0 <==> k == 0)
        &&& (k == 0 ==> st.0.len() == 0)
        &&& crate::text::spec_join(wrap_lines(st), " "@) == crate::text::spec_join(ws.take(k), " "@)
        &&& forall|j: int| 0 <= j < wrap_lines(st).len() ==>
            byte_len(#[trigger] wrap_lines(st)[j]) <= max || ws.contains(wrap_lines(st)[j])
    }),
    decreases k,
{
    reveal_strlit(" ");
    if k > 0 {
        lemma_wrap_invariant(ws, k - 1, max);
        let st = wrap_fold(ws, k - 1, max);
        let w = ws[k - 1];
        let nst = wrap_fold(ws, k, max);
        assert(nst == wrap_step(st, w, max));
        assert(ws.take(k) =~= ws.take(k - 1).push(w));
        assert(ws.contains(w)) by { assert(ws[k - 1] == w); }
        if st.1.len() == 0 {
            assert(ws.take(k - 1) =~= Seq::<Seq<char>>::empty());
            assert(wrap_lines(nst) =~= seq![w]);
            assert(st.1 + w =~= w);
            assert(ws.take(k) =~= seq![w]);
        } else if byte_len(st.1) + 1 + byte_len(w) <= max {
            lemma_byte_len_concat(st.1, " "@);
            lemma_byte_len_concat(st.1 + " "@, w);
            assert(byte_len(" "@) == 1) by {
                assert(" "@ =~= seq![' ']);
                assert(seq![' '].drop_last() =~= Seq::<char>::empty());
                assert(seq![' '].last() == ' ');
                assert(byte_len(Seq::<char>::empty()) == 0);
                assert((' ' as u32) < 0x80);
            }
            let c2 = st.1 + " "@ + w;
            if st.0.len() > 0 {
                lemma_join_push(st.0, st.1, " "@);
                lemma_join_push(st.0, c2, " "@);
                assert(crate::text::spec_join(st.0.push(c2), " "@) =~= crate::text::spec_join(st.0.push(st.1), " "@) + " "@ + w);
            } else {
                assert(st.0.push(c2) =~= seq![c2]);
                assert(st.0.push(st.1) =~= seq![st.1]);
            }
            lemma_join_push(ws.take(k - 1), w, " "@);
            assert forall|j: int| 0 <= j < wrap_lines(nst).len() implies
                byte_len(#[trigger] wrap_lines(nst)[j]) <= max || ws.contains(wrap_lines(nst)[j]) by {
                if j < st.0.len() { assert(wrap_lines(nst)[j] == wrap_lines(st)[j]); }
            }
        } else {
            lemma_join_push(st.0.push(st.1), w, " "@);
            lemma_join_push(ws.take(k - 1), w, " "@);
            assert(wrap_lines(nst) =~= st.0.push(st.1).push(w));
            assert forall|j: int| 0 <= j < wrap_lines(nst).len() implies
                byte_len(#[trigger] wrap_lines(nst)[j]) <= max || ws.contains(wrap_lines(nst)[j]) by {
                if j <= st.0.len() { assert(wrap_lines(nst)[j] == wrap_lines(st)[j]); }
            }
        }
    }
}

/// Wrapping keeps every word, in order: joining the lines with single
/// spaces gives the words of the text joined with single spaces; and every
/// line fits in `max` bytes unless it is a single word too long to fit.
pub proof fn lemma_wrap_keeps_words(text: Seq<char>, max: int)
    requires 0 <= max,
    ensures
        crate::text::spec_join(spec_wrap(text, max), " "@) == crate::text::spec_join(words(text), " "@),
        forall|j: int| 0 <= j < spec_wrap(text, max).len() ==>
            byte_len(#[trigger] spec_wrap(text, max)[j]) <= max || words(text).contains(spec_wrap(text, max)[j]),
{
    let ws = words(text);
    lemma_words_nonempty(text, 0, Seq::empty());
    lemma_wrap_invariant(ws, ws.len() as int, max);
    assert(ws.take(ws.len() as int) =~= ws);
    let st = wrap_fold(ws, ws.len() as int, max);
    if wrap_lines(st).len() > 0 {
        let r = spec_wrap(text, max);
        assert(r == wrap_lines(st));
        let wl = wrap_lines(st);
        assert forall|j: int| 0 <= j < r.len() implies byte_len(#[trigger] r[j]) <= max || ws.contains(r[j]) by {
            assert(r[j] == wl[j]);
            assert(byte_len(wl[j]) <= max || ws.contains(wl[j]));
        }
    } else {
        assert(ws.len() == 0);
        let r = spec_wrap(text, max);
        assert(r =~= seq![Seq::<char>::empty()]);
        assert(byte_len(Seq::<char>::empty()) == 0);
        assert(r[0] == Seq::<char>::empty());
    }
}

/// Wrapping always gives at least one line, and the line being filled is
/// closed exactly when the next word would not fit after a space: at each
/// word either a new line is started because `line + " " + word` would
/// exceed `max`, or the word joins the current line.
pub proof fn lemma_wrap_breaks(text: Seq<char>, max: int)
    ensures
        spec_wrap(text, max).len() > 0,
        forall|k: int| #![trigger wrap_fold(words(text), k - 1, max)] 1 <= k <= words(text).len() ==> {
            let ws = words(text);
            let a = wrap_fold(ws, k - 1, max);
            let b = wrap_fold(ws, k, max);
            ||| (a.1.len() > 0 && byte_len(a.1) + 1 + byte_len(ws[k - 1]) > max && b.0 == a.0.push(a.1) && b.1 == ws[k - 1])
            ||| ((a.1.len() == 0 || byte_len(a.1) + 1 + byte_len(ws[k - 1]) <= max) && b.0 == a.0)
        },
{
    let ws = words(text);
    assert forall|k: int| #![trigger wrap_fold(ws, k - 1, max)] 1 <= k <= ws.len() implies {
        let a = wrap_fold(ws, k - 1, max);
        let b = wrap_fold(ws, k, max);
        ||| (a.1.len() > 0 && byte_len(a.1) + 1 + byte_len(ws[k - 1]) > max && b.0 == a.0.push(a.1) && b.1 == ws[k - 1])
        ||| ((a.1.len() == 0 || byte_len(a.1) + 1 + byte_len(ws[k - 1]) <= max) && b.0 == a.0)
    } by {
        assert(wrap_fold(ws, k, max) == wrap_step(wrap_fold(ws, k - 1, max), ws[k - 1], max));
    }
}

/// Whether a lowered label names a branch or a loop edge.
pub open spec fn is_branch_word(t: Seq<char>) -> bool {
    t == "yes"@ || t == "no"@ || t == "elseif"@ || t == "else"@ || t == "case"@ || t == "default"@
        || t == "loop back"@ || t == "loop done"@
}

/// How a shown edge label is placed: whether it is a branch label (placed
/// early on the path and nudged), and whether it is an `elseif` (placed
/// late), both by the label trimmed and lowered.
pub fn label_kind(lbl: &str) -> (r: (bool, bool))
    ensures
        r.0 == is_branch_word(spec_lower(spec_trim(lbl@))),
        r.1 == (spec_lower(spec_trim(lbl@)) == "elseif"@),
{
    let t = lower_vec(&trim_vec(&chars_of(lbl)));
    let late = eq_vec(&t, &chars_of("elseif"));
    let branch = eq_vec(&t, &chars_of("yes")) || eq_vec(&t, &chars_of("no")) || late
        || eq_vec(&t, &chars_of("else")) || eq_vec(&t, &chars_of("case")) || eq_vec(&t, &chars_of("default"))
        || eq_vec(&t, &chars_of("loop back")) || eq_vec(&t, &chars_of("loop done"));
    (branch, late)
}

/// The crop rectangle around the drawn content: the content box grown by
/// 72 pixels and clipped to the canvas `w` by `h`; `None` when nothing is
/// left.
pub open spec fn spec_crop(min_x: int, min_y: int, max_x: int, max_y: int, w: int, h: int) -> Option<(int, int, int, int)> {
    let x1 = if min_x - 72 > 0 { min_x - 72 } else { 0 };
    let y1 = if min_y - 72 > 0 { min_y - 72 } else { 0 };
    let x2 = if max_x + 72 < w - 1 { max_x + 72 } else { w - 1 };
    let y2 = if max_y + 72 < h - 1 { max_y + 72 } else { h - 1 };
    if x2 > x1 && y2 > y1 { Some((x1, y1, x2, y2)) } else { None }
}

pub fn crop_rect(min_x: i32, min_y: i32, max_x: i32, max_y: i32, w: i32, h: i32) -> (r: Option<(i32, i32, i32, i32)>)
    ensures
        match r {
            Some(c) => spec_crop(min_x as int, min_y as int, max_x as int, max_y as int, w as int, h as int)
                == Some((c.0 as int, c.1 as int, c.2 as int, c.3 as int)),
            None => spec_crop(min_x as int, min_y as int, max_x as int, max_y as int, w as int, h as int) is None,
        },
{
    let a = (min_x as i64) - 72;
    let b = (min_y as i64) - 72;
    let c = (max_x as i64) + 72;
    let d = (max_y as i64) + 72;
    let x1: i64 = if a > 0 { a } else { 0 };
    let y1: i64 = if b > 0 { b } else { 0 };
    let x2: i64 = if c < (w as i64) - 1 { c } else { (w as i64) - 1 };
    let y2: i64 = if d < (h as i64) - 1 { d } else { (h as i64) - 1 };
    if x2 > x1 && y2 > y1 {
        Some((x1 as i32, y1 as i32, x2 as i32, y2 as i32))
    } else {
        None
    }
}

} // verus!
