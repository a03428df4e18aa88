//! Character-level helpers shared by the source parsers.
use vstd::prelude::*;
use vstd::std_specs::iter::IteratorSpec;
use vstd::string::StringExecFns;

verus! {

broadcast use vstd::string::group_string_axioms;

/// Appends one character to a string (std `String::push`).
/// Trusted: the std documentation says `push` appends the given char to the
/// end of the string; the contract states exactly that.
#[verifier::external_body]
pub fn push_char(s: &mut String, c: char)
    ensures
        final(s)@ == old(s)@.push(c),
{
    s.push(c);
}

/// The characters of a string slice, in order.
pub fn chars_of(s: &str) -> (v: Vec<char>)
    ensures
        v@ == s@,
{
    let mut v: Vec<char> = Vec::new();
    for c in it: s.chars()
        invariant
            v@ == it.seq().take(it.index() as int),
    {
        v.push(c);
    }
    assert(v@ =~= s@);
    v
}

/// Builds a string from a sequence of characters.
pub fn string_of(v: &[char]) -> (s: String)
    ensures
        s@ == v@,
{
    let mut s = String::new();
    let mut i: usize = 0;
    while i < v.len()
        invariant
            i <= v.len(),
            s@ == v@.take(i as int),
        decreases v.len() - i,
    {
        push_char(&mut s, v[i]);
        i += 1;
        assert(s@ =~= v@.take(i as int));
    }
    assert(v@.take(v.len() as int) =~= v@);
    s
}

/// Whether an optional label is present and equal to `lit`.
pub fn label_is(l: &Option<String>, lit: &str) -> (r: bool)
    ensures r == (l is Some && l->0@ == lit@),
{
    match l {
        Some(s) => {
            let t = String::from_str(lit);
            *s == t
        },
        None => false,
    }
}

/// Whether a string slice equals `lit`.
pub fn str_is(s: &str, lit: &str) -> (r: bool)
    ensures r == (s@ == lit@),
{
    let a = String::from_str(s);
    let b = String::from_str(lit);
    a == b
}

/// The Unicode `White_Space` characters, those for which std's
/// `char::is_whitespace` holds.
pub open spec fn is_ws(c: char) -> bool {
    let u = c as u32;
    (0x09 <= u <= 0x0D) || u == 0x20 || u == 0x85 || u == 0xA0 || u == 0x1680
        || (0x2000 <= u <= 0x200A) || u == 0x2028 || u == 0x2029 || u == 0x202F || u == 0x205F || u == 0x3000
}

pub fn is_whitespace_char(c: char) -> (r: bool)
    ensures r == is_ws(c),
{
    let u = c as u32;
    (0x09 <= u && u <= 0x0D) || u == 0x20 || u == 0x85 || u == 0xA0 || u == 0x1680
        || (0x2000 <= u && u <= 0x200A) || u == 0x2028 || u == 0x2029 || u == 0x202F || u == 0x205F || u == 0x3000
}

/// Index of the first non-whitespace character at or after `i`.
pub open spec fn first_non_ws(s: Seq<char>, i: int) -> int
    decreases s.len() - i,
{
    if i >= s.len() { s.len() as int } else if is_ws(s[i]) { first_non_ws(s, i + 1) } else { i }
}

/// End of `s.take(j)` once trailing whitespace is removed.
pub open spec fn end_non_ws(s: Seq<char>, j: int) -> int
    decreases j,
{
    if j <= 0 { 0 } else if is_ws(s[j - 1]) { end_non_ws(s, j - 1) } else { j }
}

pub open spec fn spec_trim_end(s: Seq<char>) -> Seq<char> {
    s.take(end_non_ws(s, s.len() as int))
}

pub open spec fn spec_trim_start(s: Seq<char>) -> Seq<char> {
    s.skip(first_non_ws(s, 0))
}

/// `s` without leading and trailing whitespace (std `str::trim`).
pub open spec fn spec_trim(s: Seq<char>) -> Seq<char> {
    spec_trim_start(spec_trim_end(s))
}

pub proof fn lemma_first_non_ws(s: Seq<char>, i: int)
    requires 0 <= i <= s.len(),
    ensures i <= first_non_ws(s, i) <= s.len(),
    decreases s.len() - i,
{
    if i < s.len() && is_ws(s[i]) {
        lemma_first_non_ws(s, i + 1);
    }
}

pub proof fn lemma_end_non_ws(s: Seq<char>, j: int)
    requires 0 <= j <= s.len(),
    ensures 0 <= end_non_ws(s, j) <= j,
    decreases j,
{
    if j > 0 && is_ws(s[j - 1]) {
        lemma_end_non_ws(s, j - 1);
    }
}

/// `s` with trailing whitespace removed.
pub fn trim_end_vec(s: &[char]) -> (r: Vec<char>)
    ensures r@ == spec_trim_end(s@),
{
    let mut j: usize = s.len();
    while j > 0 && is_whitespace_char(s[j - 1])
        invariant
            j <= s.len(),
            end_non_ws(s@, j as int) == end_non_ws(s@, s@.len() as int),
        decreases j,
    {
        j -= 1;
    }
    let mut r: Vec<char> = Vec::new();
    let mut k: usize = 0;
    while k < j
        invariant
            k <= j, j <= s.len(),
            r@ == s@.take(k as int),
        decreases j - k,
    {
        r.push(s[k]);
        k += 1;
        assert(r@ =~= s@.take(k as int));
    }
    r
}

/// `s` with leading whitespace removed.
pub fn trim_start_vec(s: &[char]) -> (r: Vec<char>)
    ensures r@ == spec_trim_start(s@),
{
    let mut i: usize = 0;
    while i < s.len() && is_whitespace_char(s[i])
        invariant
            i <= s.len(),
            first_non_ws(s@, i as int) == first_non_ws(s@, 0),
        decreases s.len() - i,
    {
        i += 1;
    }
    let mut r: Vec<char> = Vec::new();
    let mut k: usize = i;
    while k < s.len()
        invariant
            i <= k <= s.len(),
            r@ == s@.subrange(i as int, k as int),
        decreases s.len() - k,
    {
        r.push(s[k]);
        k += 1;
        assert(r@ =~= s@.subrange(i as int, k as int));
    }
    assert(r@ =~= s@.skip(i as int));
    r
}

/// `s` without leading and trailing whitespace.
pub fn trim_vec(s: &[char]) -> (r: Vec<char>)
    ensures r@ == spec_trim(s@),
{
    let e = trim_end_vec(s);
    trim_start_vec(&e)
}

/// Whether `s` begins with `p`.
pub open spec fn seq_starts_with(s: Seq<char>, p: Seq<char>) -> bool {
    p.len() <= s.len() && s.take(p.len() as int) == p
}

pub fn starts_with_vec(s: &[char], p: &[char]) -> (r: bool)
    ensures r == seq_starts_with(s@, p@),
{
    if p.len() > s.len() {
        return false;
    }
    let mut i: usize = 0;
    while i < p.len()
        invariant
            i <= p.len(), p.len() <= s.len(),
            forall|k: int| 0 <= k < i ==> s@[k] == p@[k],
        decreases p.len() - i,
    {
        if s[i] != p[i] {
            assert(s@.take(p.len() as int)[i as int] != p@[i as int]);
            return false;
        }
        i += 1;
    }
    assert(s@.take(p.len() as int) =~= p@);
    true
}

/// Whether `p` occurs in `s` starting at index `i`.
pub open spec fn occurs_at(s: Seq<char>, p: Seq<char>, i: int) -> bool {
    0 <= i && i + p.len() <= s.len() && s.subrange(i, i + p.len()) == p
}

/// Whether `p` occurs somewhere in `s` (std `str::contains`).
pub open spec fn seq_contains(s: Seq<char>, p: Seq<char>) -> bool {
    exists|i: int| occurs_at(s, p, i)
}

fn occurs_at_exec(s: &[char], p: &[char], i: usize) -> (r: bool)
    ensures r == occurs_at(s@, p@, i as int),
{
    if i > s.len() || p.len() > s.len() - i {
        return false;
    }
    let mut k: usize = 0;
    while k < p.len()
        invariant
            k <= p.len(), i + p.len() <= s.len(),
            forall|m: int| 0 <= m < k ==> s@[i + m] == p@[m],
        decreases p.len() - k,
    {
        if s[i + k] != p[k] {
            assert(s@.subrange(i as int, i + p.len())[k as int] != p@[k as int]);
            return false;
        }
        k += 1;
    }
    assert(s@.subrange(i as int, i + p.len()) =~= p@);
    true
}

/// Index of the first occurrence of `p` in `s` at or after `from`.
pub open spec fn first_occurrence(s: Seq<char>, p: Seq<char>, from: int) -> Option<int>
    decreases s.len() + 1 - from,
{
    if from < 0 || from > s.len() {
        None
    } else if occurs_at(s, p, from) {
        Some(from)
    } else {
        first_occurrence(s, p, from + 1)
    }
}

pub proof fn lemma_first_occurrence(s: Seq<char>, p: Seq<char>, from: int)
    requires 0 <= from,
    ensures
        first_occurrence(s, p, from) is Some ==> ({
            let i = first_occurrence(s, p, from)->0;
            from <= i && occurs_at(s, p, i) && forall|k: int| from <= k < i ==> !occurs_at(s, p, k)
        }),
        first_occurrence(s, p, from) is None ==> forall|k: int| from <= k ==> !occurs_at(s, p, k),
    decreases s.len() + 1 - from,
{
    if from <= s.len() && !occurs_at(s, p, from) {
        lemma_first_occurrence(s, p, from + 1);
    }
}

/// Finds the first occurrence of `p` in `s` at or after `from`.
pub fn find_vec(s: &[char], p: &[char], from: usize) -> (r: Option<usize>)
    ensures
        r is Some <==> first_occurrence(s@, p@, from as int) is Some,
        r is Some ==> r->0 as int == first_occurrence(s@, p@, from as int)->0,
{
    let mut i: usize = from;
    if i > s.len() {
        return None;
    }
    while i < s.len()
        invariant
            from <= i <= s.len(),
            first_occurrence(s@, p@, i as int) == first_occurrence(s@, p@, from as int),
        decreases s.len() - i,
    {
        if occurs_at_exec(s, p, i) {
            return Some(i);
        }
        i += 1;
    }
    if occurs_at_exec(s, p, i) {
        return Some(i);
    }
    assert(first_occurrence(s@, p@, i + 1) is None);
    None
}

pub fn contains_vec(s: &[char], p: &[char]) -> (r: bool)
    ensures r == seq_contains(s@, p@),
{
    let f = find_vec(s, p, 0);
    proof { lemma_first_occurrence(s@, p@, 0); }
    f.is_some()
}

/// Whether two character sequences are equal.
pub fn eq_vec(a: &[char], b: &[char]) -> (r: bool)
    ensures r == (a@ == b@),
{
    if a.len() != b.len() {
        return false;
    }
    let r = starts_with_vec(a, b);
    proof {
        if r { assert(a@.take(b@.len() as int) =~= a@); }
        if a@ == b@ { assert(a@.take(b@.len() as int) =~= a@); }
    }
    r
}

/// Length of the run of `c` at the end of `s.take(j)`, removed.
pub open spec fn end_not_char(s: Seq<char>, c: char, j: int) -> int
    decreases j,
{
    if j <= 0 { 0 } else if s[j - 1] == c { end_not_char(s, c, j - 1) } else { j }
}

/// `s` with every trailing `c` removed (std `trim_end_matches` with a char).
pub open spec fn spec_trim_end_char(s: Seq<char>, c: char) -> Seq<char> {
    s.take(end_not_char(s, c, s.len() as int))
}

pub fn trim_end_char_vec(s: &[char], c: char) -> (r: Vec<char>)
    ensures r@ == spec_trim_end_char(s@, c),
{
    let mut j: usize = s.len();
    while j > 0 && s[j - 1] == c
        invariant
            j <= s.len(),
            end_not_char(s@, c, j as int) == end_not_char(s@, c, s@.len() as int),
        decreases j,
    {
        j -= 1;
    }
    slice_vec(s, 0, j)
}

/// A copy of `s[a..b]`.
pub fn slice_vec(s: &[char], a: usize, b: usize) -> (r: Vec<char>)
    requires a <= b <= s@.len(),
    ensures r@ == s@.subrange(a as int, b as int),
{
    let mut r: Vec<char> = Vec::new();
    let mut k: usize = a;
    while k < b
        invariant
            a <= k <= b, b <= s.len(),
            r@ == s@.subrange(a as int, k as int),
        decreases b - k,
    {
        r.push(s[k]);
        k += 1;
        assert(r@ =~= s@.subrange(a as int, k as int));
    }
    r
}

/// Appends all of `t` to `v`.
pub fn append_chars(v: &mut Vec<char>, t: &[char])
    ensures final(v)@ == old(v)@ + t@,
{
    let ghost v0 = v@;
    let mut k: usize = 0;
    while k < t.len()
        invariant
            k <= t.len(),
            v@ == v0 + t@.take(k as int),
        decreases t.len() - k,
    {
        v.push(t[k]);
        k += 1;
        assert(v@ =~= v0 + t@.take(k as int));
    }
    assert(t@.take(t@.len() as int) =~= t@);
}

pub proof fn lemma_trim_len(s: Seq<char>)
    ensures
        spec_trim_end(s).len() <= s.len(),
        spec_trim_start(s).len() <= s.len(),
        spec_trim(s).len() <= s.len(),
{
    lemma_end_non_ws(s, s.len() as int);
    lemma_first_non_ws(s, 0);
    let e = spec_trim_end(s);
    lemma_first_non_ws(e, 0);
}

/// Index of the first `c` in `s` at or after `i`, or the length of `s`.
pub open spec fn first_char_idx(s: Seq<char>, c: char, i: int) -> int
    decreases s.len() - i,
{
    if i >= s.len() { s.len() as int } else if s[i] == c { i } else { first_char_idx(s, c, i + 1) }
}

pub proof fn lemma_first_char_idx(s: Seq<char>, c: char, i: int)
    requires 0 <= i <= s.len(),
    ensures i <= first_char_idx(s, c, i) <= s.len(),
    decreases s.len() - i,
{
    if i < s.len() && s[i] != c {
        lemma_first_char_idx(s, c, i + 1);
    }
}

/// The part of `s` before its first `c` (std `split(c).next()`).
pub open spec fn spec_before_char(s: Seq<char>, c: char) -> Seq<char> {
    s.take(first_char_idx(s, c, 0))
}

pub fn before_char(s: &[char], c: char) -> (r: Vec<char>)
    ensures r@ == spec_before_char(s@, c),
{
    let mut i: usize = 0;
    while i < s.len() && s[i] != c
        invariant i <= s.len(), first_char_idx(s@, c, i as int) == first_char_idx(s@, c, 0),
        decreases s.len() - i,
    {
        i += 1;
    }
    let r = slice_vec(s, 0, i);
    assert(r@ =~= s@.take(i as int));
    r
}

/// Parts joined with `sep` between consecutive parts.
pub open spec fn spec_join(parts: Seq<Seq<char>>, sep: Seq<char>) -> Seq<char>
    decreases parts.len(),
{
    if parts.len() == 0 {
        Seq::empty()
    } else if parts.len() == 1 {
        parts[0]
    } else {
        spec_join(parts.drop_last(), sep) + sep + parts.last()
    }
}

pub fn join_vecs(parts: &Vec<Vec<char>>, sep: &[char]) -> (r: Vec<char>)
    ensures r@ == spec_join(parts@.map_values(|v: Vec<char>| v@), sep@),
{
    let ghost ps = parts@.map_values(|v: Vec<char>| v@);
    let mut r: Vec<char> = Vec::new();
    let mut k: usize = 0;
    while k < parts.len()
        invariant
            k <= parts.len(), ps == parts@.map_values(|v: Vec<char>| v@),
            r@ == spec_join(ps.take(k as int), sep@),
        decreases parts.len() - k,
    {
        assert(ps.take(k + 1).drop_last() =~= ps.take(k as int));
        if k > 0 {
            append_chars(&mut r, sep);
        }
        append_chars(&mut r, &parts[k]);
        k += 1;
        proof {
            if k == 1 {
                assert(r@ =~= ps.take(1)[0]);
            }
        }
    }
    assert(ps.take(parts.len() as int) =~= ps);
    r
}

/// Decimal digits of `n`.
pub open spec fn spec_decimal(n: nat) -> Seq<char>
    decreases n,
{
    if n < 10 {
        seq![digit_char(n)]
    } else {
        spec_decimal(n / 10) + seq![digit_char(n % 10)]
    }
}

pub open spec fn digit_char(d: nat) -> char {
    if d == 0 { '0' } else if d == 1 { '1' } else if d == 2 { '2' } else if d == 3 { '3' } else if d == 4 { '4' }
    else if d == 5 { '5' } else if d == 6 { '6' } else if d == 7 { '7' } else if d == 8 { '8' } else { '9' }
}

fn digit(d: usize) -> (c: char)
    requires d < 10,
    ensures c == digit_char(d as nat),
{
    if d == 0 { '0' } else if d == 1 { '1' } else if d == 2 { '2' } else if d == 3 { '3' } else if d == 4 { '4' }
    else if d == 5 { '5' } else if d == 6 { '6' } else if d == 7 { '7' } else if d == 8 { '8' } else { '9' }
}

/// The decimal representation of `n`.
pub fn decimal(n: usize) -> (r: Vec<char>)
    ensures r@ == spec_decimal(n as nat),
    decreases n,
{
    if n < 10 {
        let mut r: Vec<char> = Vec::new();
        r.push(digit(n));
        assert(r@ =~= spec_decimal(n as nat));
        r
    } else {
        let mut r = decimal(n / 10);
        r.push(digit(n % 10));
        r
    }
}

/// `x` without one trailing carriage return.
pub open spec fn strip_cr(x: Seq<char>) -> Seq<char> {
    if x.len() > 0 && x.last() == '\r' { x.drop_last() } else { x }
}

/// The lines of `s` as std `str::lines` yields them: split at `\n`, a
/// `\r` before the `\n` dropped, and no empty line after a final `\n`.
pub open spec fn split_lines(s: Seq<char>) -> Seq<Seq<char>>
    decreases s.len(),
{
    if s.len() == 0 {
        Seq::empty()
    } else {
        let j = first_char_idx(s, '\n', 0);
        if j >= s.len() {
            seq![s]
        } else {
            proof { lemma_first_char_idx(s, '\n', 0); }
            seq![strip_cr(s.take(j))] + split_lines(s.skip(j + 1))
        }
    }
}

/// Total length of the first `k` lines, counting one per line end.
pub open spec fn lines_total(ls: Seq<Seq<char>>, k: int) -> int
    decreases k,
{
    if k <= 0 { 0 } else { lines_total(ls, k - 1) + ls[k - 1].len() + 1 }
}

proof fn lemma_lines_total_concat(a: Seq<Seq<char>>, b: Seq<Seq<char>>, k: int)
    requires 0 <= k <= b.len(),
    ensures lines_total(a + b, a.len() + k) == lines_total(a, a.len() as int) + lines_total(b, k),
    decreases k,
{
    if k > 0 {
        lemma_lines_total_concat(a, b, k - 1);
        assert((a + b)[a.len() + k - 1] == b[k - 1]);
    } else {
        lemma_lines_total_prefix(a, b, a.len() as int);
    }
}

proof fn lemma_lines_total_prefix(a: Seq<Seq<char>>, b: Seq<Seq<char>>, k: int)
    requires 0 <= k <= a.len(),
    ensures lines_total(a + b, k) == lines_total(a, k),
    decreases k,
{
    if k > 0 {
        lemma_lines_total_prefix(a, b, k - 1);
        assert((a + b)[k - 1] == a[k - 1]);
    }
}

pub proof fn lemma_split_total(s: Seq<char>)
    ensures lines_total(split_lines(s), split_lines(s).len() as int) <= s.len() + 1,
    decreases s.len(),
{
    if s.len() > 0 {
        let j = first_char_idx(s, '\n', 0);
        lemma_first_char_idx(s, '\n', 0);
        if j >= s.len() {
            let a = seq![s];
            assert(split_lines(s) == a);
            assert(lines_total(a, 0) == 0);
            assert(lines_total(a, 1) == s.len() + 1);
        }
        if j < s.len() {
            let rest = s.skip(j + 1);
            lemma_split_total(rest);
            let a = seq![strip_cr(s.take(j))];
            assert(split_lines(s) == a + split_lines(rest));
            lemma_lines_total_concat(a, split_lines(rest), split_lines(rest).len() as int);
            assert(lines_total(a, 0) == 0);
            assert(lines_total(a, 1) == strip_cr(s.take(j)).len() + 1);
            assert(strip_cr(s.take(j)).len() <= j);
            assert(rest.len() == s.len() - j - 1);
        }
    }
}

/// The lines of `s` (std `str::lines`).
pub fn lines_of(s: &str) -> (out: Vec<String>)
    ensures
        out@.map_values(|x: String| x@) == split_lines(s@),
{
    let cs = chars_of(s);
    let ghost full = s@;
    let mut out: Vec<String> = Vec::new();
    let mut start: usize = 0;
    assert(full.skip(0) =~= full);
    assert(out@.map_values(|x: String| x@) =~= Seq::<Seq<char>>::empty());
    while start < cs.len()
        invariant
            cs@ == full, start <= cs.len(),
            out@.map_values(|x: String| x@) + split_lines(full.skip(start as int)) == split_lines(full),
        decreases cs.len() - start,
    {
        let ghost rest = full.skip(start as int);
        let mut j = start;
        while j < cs.len() && cs[j] != '\n'
            invariant start <= j <= cs.len(), cs@ == full, rest == full.skip(start as int), start < cs.len(),
                first_char_idx(rest, '\n', j - start) == first_char_idx(rest, '\n', 0),
            decreases cs.len() - j,
        {
            assert(rest[j - start] == full[j as int]);
            j += 1;
        }
        proof {
            if j < cs.len() { assert(rest[j - start] == full[j as int]); }
        }
        let ghost o0 = out@.map_values(|x: String| x@);
        if j >= cs.len() {
            let piece = slice_vec(&cs, start, j);
            assert(piece@ =~= rest);
            out.push(string_of(&piece));
            assert(out@.map_values(|x: String| x@) =~= o0.push(rest));
            assert(split_lines(full.skip(j as int)) =~= Seq::<Seq<char>>::empty()) by {
                assert(full.skip(j as int).len() == 0);
            }
            assert(split_lines(rest) == seq![rest]);
            start = j;
            assert(out@.map_values(|x: String| x@) + split_lines(full.skip(start as int)) =~= o0 + split_lines(rest));
        } else {
            let mut end = j;
            if end > start && cs[end - 1] == '\r' {
                end -= 1;
            }
            let piece = slice_vec(&cs, start, end);
            assert(piece@ =~= strip_cr(rest.take(j - start)));
            out.push(string_of(&piece));
            assert(out@.map_values(|x: String| x@) =~= o0.push(strip_cr(rest.take(j - start))));
            assert(rest.skip(j - start + 1) =~= full.skip(j + 1));
            start = j + 1;
            assert(out@.map_values(|x: String| x@) + split_lines(full.skip(start as int)) =~= o0 + split_lines(rest));
        }
    }
    assert(full.skip(start as int).len() == 0);
    assert(out@.map_values(|x: String| x@) =~= split_lines(full));
    out
}

pub proof fn lemma_lines_total_mono(ls: Seq<Seq<char>>, a: int, b: int)
    requires 0 <= a <= b <= ls.len(),
    ensures 0 <= lines_total(ls, a) <= lines_total(ls, b), a < b ==> ls[a].len() + 1 <= lines_total(ls, b) - lines_total(ls, a),
        lines_total(ls, b) - lines_total(ls, a) >= b - a,
    decreases b - a,
{
    lemma_lines_total_nonneg(ls, a);
    if a < b {
        lemma_lines_total_mono(ls, a, b - 1);
        if a < b - 1 {
            lemma_lines_total_mono(ls, a + 1, b - 1);
        }
    }
}

proof fn lemma_lines_total_nonneg(ls: Seq<Seq<char>>, a: int)
    requires 0 <= a <= ls.len(),
    ensures 0 <= lines_total(ls, a),
    decreases a,
{
    if a > 0 {
        lemma_lines_total_nonneg(ls, a - 1);
    }
}

/// `s` with `p` removed from its front as often as it occurs there (std
/// `trim_start_matches` with a string).
pub open spec fn strip_all_prefix(s: Seq<char>, p: Seq<char>) -> Seq<char>
    decreases s.len(),
{
    if p.len() > 0 && seq_starts_with(s, p) { strip_all_prefix(s.skip(p.len() as int), p) } else { s }
}

pub fn strip_all_prefix_vec(s: &[char], p: &[char]) -> (r: Vec<char>)
    ensures r@ == strip_all_prefix(s@, p@),
{
    let mut i: usize = 0;
    assert(s@.skip(0) =~= s@);
    while p.len() > 0 && i <= s.len() && starts_with_vec(&slice_vec(s, i, s.len()), p)
        invariant
            i <= s.len(),
            strip_all_prefix(s@.skip(i as int), p@) == strip_all_prefix(s@, p@),
        decreases s.len() - i,
    {
        assert(s@.skip(i as int) =~= s@.subrange(i as int, s@.len() as int));
        assert(s@.skip(i as int).skip(p@.len() as int) =~= s@.skip(i + p@.len()));
        i = i + p.len();
    }
    assert(s@.skip(i as int) =~= s@.subrange(i as int, s@.len() as int));
    assert(s@.skip(0) =~= s@);
    slice_vec(s, i, s.len())
}

/// `t` with every run of whitespace turned into one space.
pub open spec fn collapse_ws(t: Seq<char>, k: int) -> Seq<char>
    decreases k,
{
    if k <= 0 {
        Seq::empty()
    } else if is_ws(t[k - 1]) {
        if k - 1 > 0 && is_ws(t[k - 2]) { collapse_ws(t, k - 1) } else { collapse_ws(t, k - 1).push(' ') }
    } else {
        collapse_ws(t, k - 1).push(t[k - 1])
    }
}

/// The words of `s` joined by single spaces (std `split_whitespace`
/// joined with `" "`).
pub open spec fn spec_norm_ws(s: Seq<char>) -> Seq<char> {
    let t = spec_trim(s);
    collapse_ws(t, t.len() as int)
}

pub fn norm_ws(s: &[char]) -> (r: Vec<char>)
    ensures r@ == spec_norm_ws(s@),
{
    let t = trim_vec(s);
    let mut r: Vec<char> = Vec::new();
    let mut k: usize = 0;
    while k < t.len()
        invariant k <= t.len(), r@ == collapse_ws(t@, k as int),
        decreases t.len() - k,
    {
        let c = t[k];
        if is_whitespace_char(c) {
            if !(k > 0 && is_whitespace_char(t[k - 1])) {
                r.push(' ');
            }
        } else {
            r.push(c);
        }
        k += 1;
    }
    r
}

/// Index of the first character of `s` at or after `i` that is one of
/// `cs`, or the length of `s`.
pub open spec fn first_any_idx(s: Seq<char>, cs: Seq<char>, i: int) -> int
    decreases s.len() - i,
{
    if i >= s.len() { s.len() as int } else if cs.contains(s[i]) { i } else { first_any_idx(s, cs, i + 1) }
}

/// The part of `s` before the first of the characters `cs`.
pub open spec fn spec_before_any(s: Seq<char>, cs: Seq<char>) -> Seq<char> {
    s.take(first_any_idx(s, cs, 0))
}

pub fn before_any(s: &[char], cs: &[char]) -> (r: Vec<char>)
    ensures r@ == spec_before_any(s@, cs@),
{
    let mut i: usize = 0;
    while i < s.len() && !char_in(cs, s[i])
        invariant i <= s.len(), first_any_idx(s@, cs@, i as int) == first_any_idx(s@, cs@, 0),
        decreases s.len() - i,
    {
        i += 1;
    }
    let r = slice_vec(s, 0, i);
    assert(r@ =~= s@.take(i as int));
    r
}

pub fn char_in(cs: &[char], c: char) -> (r: bool)
    ensures r == cs@.contains(c),
{
    let mut i: usize = 0;
    while i < cs.len()
        invariant i <= cs.len(), forall|k: int| 0 <= k < i ==> cs@[k] != c,
        decreases cs.len() - i,
    {
        if cs[i] == c {
            return true;
        }
        i += 1;
    }
    false
}

} // verus!
