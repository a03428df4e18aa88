//! Poly-line paths between nodes: segment lists, length and bend counts,
//! simplification, and the spacing penalties between paths.
use vstd::prelude::*;
use crate::geometry::{Pt, Seg, spec_segment, segment_orient_and_span, iabs, imin, path_ok, pt_ok, abs_i32, pt_eq};

verus! {

/// A routed edge: source and target node indices, label, and its path.
#[derive(Debug, Clone)]
pub struct EdgePath {
    pub from: usize,
    pub to: usize,
    pub label: Option<String>,
    pub path: Vec<Pt>,
}

/// Whether `p` occurs in `v`.
pub fn pt_in(v: &[Pt], p: Pt) -> (r: bool)
    ensures r == v@.contains(p),
{
    let mut i: usize = 0;
    while i < v.len()
        invariant
            i <= v.len(),
            forall|k: int| 0 <= k < i ==> v@[k] != p,
        decreases v.len() - i,
    {
        if pt_eq(v[i], p) {
            return true;
        }
        i += 1;
    }
    false
}

/// The segments of a path, one per pair of consecutive points.
pub open spec fn spec_path_segments(p: Seq<Pt>) -> Seq<Seg> {
    Seq::new((if p.len() == 0 { 0 } else { p.len() - 1 }) as nat, |i: int| spec_segment(p[i], p[i + 1]))
}

pub fn path_segments(path: &[Pt]) -> (out: Vec<Seg>)
    ensures out@ == spec_path_segments(path@),
{
    let mut out: Vec<Seg> = Vec::new();
    let n = if path.len() == 0 { 0 } else { path.len() - 1 };
    let mut i: usize = 0;
    while i < n
        invariant
            n == (if path.len() == 0 { 0 } else { path.len() - 1 }),
            i <= n,
            out@.len() == i,
            forall|k: int| 0 <= k < i ==> out@[k] == spec_segment(path@[k], path@[k + 1]),
        decreases n - i,
    {
        out.push(segment_orient_and_span(path[i], path[i + 1]));
        i += 1;
    }
    assert(out@ =~= spec_path_segments(path@));
    out
}

/// Number of non-diagonal segments among the first `n` of `s`.
pub open spec fn count_orth(s: Seq<Seg>, n: int) -> int
    decreases n,
{
    if n <= 0 {
        0
    } else {
        count_orth(s, n - 1) + (if s[n - 1].0 != 'x' { 1int } else { 0 })
    }
}

proof fn lemma_count_orth_bound(s: Seq<Seg>, n: int)
    requires 0 <= n,
    ensures 0 <= count_orth(s, n) <= n,
    decreases n,
{
    if n > 0 {
        lemma_count_orth_bound(s, n - 1);
    }
}

/// Number of axis-parallel segments in the path.
pub fn path_segments_count(path: &[Pt]) -> (r: i64)
    requires path@.len() <= i64::MAX,
    ensures
        r == count_orth(spec_path_segments(path@), spec_path_segments(path@).len() as int),
{
    let segs = path_segments(path);
    let mut c: i64 = 0;
    let mut i: usize = 0;
    while i < segs.len()
        invariant
            segs@ == spec_path_segments(path@),
            i <= segs.len(),
            c == count_orth(segs@, i as int),
            segs.len() <= i64::MAX,
        decreases segs.len() - i,
    {
        proof { lemma_count_orth_bound(segs@, i as int); }
        assert(c <= i);
        if segs[i].0 != 'x' {
            c += 1;
        }
        i += 1;
    }
    c
}

/// Total Manhattan length of the first `n` segments of a path.
pub open spec fn spec_plen(p: Seq<Pt>, n: int) -> int
    decreases n,
{
    if n <= 0 {
        0
    } else {
        spec_plen(p, n - 1) + iabs(p[n - 1].0 - p[n].0) + iabs(p[n - 1].1 - p[n].1)
    }
}

/// Number of orientation changes among the first `n` segments
/// (a segment is horizontal when both ends share y, vertical otherwise).
pub open spec fn spec_bends(p: Seq<Pt>, n: int) -> int
    decreases n,
{
    if n <= 1 {
        0
    } else {
        spec_bends(p, n - 1) + (if (p[n - 2].1 == p[n - 1].1) != (p[n - 1].1 == p[n].1) {
            1int
        } else {
            0
        })
    }
}

pub open spec fn seg_count(p: Seq<Pt>) -> int {
    if p.len() == 0 { 0 } else { p.len() - 1 }
}

proof fn lemma_plen_mono(p: Seq<Pt>, a: int, b: int)
    requires 0 <= a <= b,
    ensures spec_plen(p, a) <= spec_plen(p, b),
    decreases b - a,
{
    if a < b {
        lemma_plen_mono(p, a, b - 1);
    }
}

proof fn lemma_bends_bound(p: Seq<Pt>, n: int)
    requires 0 <= n,
    ensures 0 <= spec_bends(p, n) <= n,
    decreases n,
{
    if n > 1 {
        lemma_bends_bound(p, n - 1);
    }
}

/// Total length and number of bends of a path.
pub fn path_len_and_bends(path: &[Pt]) -> (r: (i32, i32))
    requires
        path_ok(path@),
        spec_plen(path@, seg_count(path@)) <= i32::MAX,
        path@.len() <= i32::MAX,
    ensures
        r.0 == spec_plen(path@, seg_count(path@)),
        r.1 == spec_bends(path@, seg_count(path@)),
{
    let mut plen: i32 = 0;
    let mut bends: i32 = 0;
    let n = if path.len() == 0 { 0 } else { path.len() - 1 };
    let mut i: usize = 0;
    while i < n
        invariant
            path_ok(path@),
            path@.len() <= i32::MAX,
            n == seg_count(path@),
            spec_plen(path@, n as int) <= i32::MAX,
            i <= n,
            plen == spec_plen(path@, i as int),
            bends == spec_bends(path@, i as int),
        decreases n - i,
    {
        let a = path[i];
        let b = path[i + 1];
        proof {
            lemma_plen_mono(path@, i + 1, n as int);
            lemma_bends_bound(path@, i as int);
            assert(pt_ok(path@[i as int]) && pt_ok(path@[i + 1]));
        }
        plen = plen + abs_i32(a.0 - b.0) + abs_i32(a.1 - b.1);
        if i > 0 {
            let p0 = path[i - 1];
            if (p0.1 == a.1) != (a.1 == b.1) {
                bends += 1;
            }
        }
        i += 1;
    }
    (plen, bends)
}

/// Length of the longest common prefix of two point lists.
pub fn common_prefix_points(a: &[Pt], b: &[Pt]) -> (k: usize)
    ensures
        k <= a@.len(),
        k <= b@.len(),
        forall|i: int| 0 <= i < k ==> a@[i] == b@[i],
        k < a@.len() && k < b@.len() ==> a@[k as int] != b@[k as int],
{
    let n = if a.len() <= b.len() { a.len() } else { b.len() };
    let mut k: usize = 0;
    while k < n && pt_eq(a[k], b[k])
        invariant
            n == imin(a@.len() as int, b@.len() as int),
            k <= n,
            forall|i: int| 0 <= i < k ==> a@[i] == b@[i],
        decreases n - k,
    {
        k += 1;
    }
    k
}

/// The points of `s` in first-occurrence order, without repeats.
pub open spec fn spec_dedup(s: Seq<Pt>) -> Seq<Pt>
    decreases s.len(),
{
    if s.len() == 0 {
        s
    } else {
        let prev = spec_dedup(s.drop_last());
        if prev.contains(s.last()) { prev } else { prev.push(s.last()) }
    }
}

/// The candidate ports without repeats, in first-occurrence order.
pub fn unique_ports(candidates: &[Pt]) -> (out: Vec<Pt>)
    ensures out@ == spec_dedup(candidates@),
{
    let mut out: Vec<Pt> = Vec::new();
    let mut i: usize = 0;
    while i < candidates.len()
        invariant
            i <= candidates.len(),
            out@ == spec_dedup(candidates@.take(i as int)),
        decreases candidates.len() - i,
    {
        let p = candidates[i];
        assert(candidates@.take(i + 1).drop_last() =~= candidates@.take(i as int));
        if !pt_in(&out, p) {
            out.push(p);
        }
        i += 1;
    }
    assert(candidates@.take(candidates.len() as int) =~= candidates@);
    out
}

/// `dst` followed by the points of `src` not already present (checked as
/// they are appended).
pub open spec fn spec_extend_unique(dst: Seq<Pt>, src: Seq<Pt>) -> Seq<Pt>
    decreases src.len(),
{
    if src.len() == 0 {
        dst
    } else {
        let prev = spec_extend_unique(dst, src.drop_last());
        if prev.contains(src.last()) { prev } else { prev.push(src.last()) }
    }
}

pub fn extend_unique(dst: &mut Vec<Pt>, src: Vec<Pt>)
    ensures final(dst)@ == spec_extend_unique(old(dst)@, src@),
{
    let ghost d0 = dst@;
    let mut i: usize = 0;
    while i < src.len()
        invariant
            i <= src.len(),
            dst@ == spec_extend_unique(d0, src@.take(i as int)),
        decreases src.len() - i,
    {
        let p = src[i];
        assert(src@.take(i + 1).drop_last() =~= src@.take(i as int));
        if !pt_in(dst, p) {
            dst.push(p);
        }
        i += 1;
    }
    assert(src@.take(src.len() as int) =~= src@);
}

pub proof fn lemma_contains_drop_last(s: Seq<Pt>, x: Pt)
    requires s.len() > 0, s.drop_last().contains(x),
    ensures s.contains(x),
{
    let d = s.drop_last();
    let m = choose|m: int| 0 <= m < d.len() && d[m] == x;
    assert(s[m] == x);
}

/// A copy of a path.
pub fn copy_path(p: &[Pt]) -> (out: Vec<Pt>)
    ensures out@ == p@,
{
    let mut out: Vec<Pt> = Vec::new();
    let mut i: usize = 0;
    while i < p.len()
        invariant i <= p.len(), out@ == p@.take(i as int),
        decreases p.len() - i,
    {
        out.push(p[i]);
        i += 1;
        assert(out@ =~= p@.take(i as int));
    }
    assert(p@.take(p.len() as int) =~= p@);
    out
}

/// Whether three points lie on one vertical or one horizontal line.
pub open spec fn collinear(a: Pt, b: Pt, c: Pt) -> bool {
    (a.0 == b.0 && b.0 == c.0) || (a.1 == b.1 && b.1 == c.1)
}

/// The path with consecutive repeated points collapsed.
pub open spec fn spec_dedup_consecutive(s: Seq<Pt>) -> Seq<Pt>
    decreases s.len(),
{
    if s.len() <= 1 {
        s
    } else {
        let prev = spec_dedup_consecutive(s.drop_last());
        if prev.last() == s.last() { prev } else { prev.push(s.last()) }
    }
}

/// One left-to-right pass from index `i` removing the middle point of every
/// collinear triple (the scan stays in place after a removal).
pub open spec fn spec_collinear_pass(s: Seq<Pt>, i: int) -> Seq<Pt>
    decreases s.len() - i,
{
    if i < 1 || i + 1 >= s.len() {
        s
    } else if collinear(s[i - 1], s[i], s[i + 1]) {
        spec_collinear_pass(s.remove(i), i)
    } else {
        spec_collinear_pass(s, i + 1)
    }
}

/// Repeats collinear passes until one removes nothing.
pub open spec fn spec_simplify_passes(s: Seq<Pt>) -> Seq<Pt>
    decreases s.len(),
{
    if s.len() < 3 {
        s
    } else {
        let t = spec_collinear_pass(s, 1);
        if t.len() >= s.len() { t } else { spec_simplify_passes(t) }
    }
}

pub open spec fn spec_simplify_path(p: Seq<Pt>) -> Seq<Pt> {
    spec_simplify_passes(spec_dedup_consecutive(p))
}

proof fn lemma_dedup_consecutive(s: Seq<Pt>)
    ensures
        s.len() > 0 ==> spec_dedup_consecutive(s).len() > 0,
        s.len() > 0 ==> spec_dedup_consecutive(s)[0] == s[0],
        s.len() > 0 ==> spec_dedup_consecutive(s).last() == s.last(),
        s.len() == 0 ==> spec_dedup_consecutive(s).len() == 0,
        spec_dedup_consecutive(s).len() <= s.len(),
        forall|x: Pt| spec_dedup_consecutive(s).contains(x) ==> s.contains(x),
    decreases s.len(),
{
    if s.len() > 1 {
        lemma_dedup_consecutive(s.drop_last());
        assert forall|x: Pt| spec_dedup_consecutive(s).contains(x) implies s.contains(x) by {
            let d = spec_dedup_consecutive(s);
            let j = choose|j: int| 0 <= j < d.len() && d[j] == x;
            let prev = spec_dedup_consecutive(s.drop_last());
            if j < prev.len() {
                assert(prev.contains(x));
                lemma_contains_drop_last(s, x);
            } else {
                assert(s[s.len() - 1] == x);
            }
        }
    }
}

proof fn lemma_pass(s: Seq<Pt>, i: int)
    requires 1 <= i,
    ensures
        spec_collinear_pass(s, i).len() <= s.len(),
        s.len() >= 2 ==> spec_collinear_pass(s, i).len() >= 2,
        s.len() > 0 ==> spec_collinear_pass(s, i)[0] == s[0],
        s.len() > 0 ==> spec_collinear_pass(s, i).last() == s.last(),
        spec_collinear_pass(s, i).len() == s.len() ==> spec_collinear_pass(s, i) == s,
        spec_collinear_pass(s, i).len() == s.len() ==> (forall|j: int|
            i <= j < s.len() - 1 ==> !#[trigger] collinear(s[j - 1], s[j], s[j + 1])),
        forall|x: Pt| spec_collinear_pass(s, i).contains(x) ==> s.contains(x),
    decreases s.len() - i,
{
    if i + 1 >= s.len() {
    } else if collinear(s[i - 1], s[i], s[i + 1]) {
        lemma_pass(s.remove(i), i);
        assert forall|x: Pt| s.remove(i).contains(x) implies s.contains(x) by {
            let j = choose|j: int| 0 <= j < s.remove(i).len() && s.remove(i)[j] == x;
            if j < i { assert(s[j] == x); } else { assert(s[j + 1] == x); }
        }
    } else {
        lemma_pass(s, i + 1);
    }
}

proof fn lemma_simplify_passes(s: Seq<Pt>)
    ensures
        spec_simplify_passes(s).len() <= s.len(),
        s.len() > 0 ==> spec_simplify_passes(s).len() > 0,
        s.len() > 0 ==> spec_simplify_passes(s)[0] == s[0],
        s.len() > 0 ==> spec_simplify_passes(s).last() == s.last(),
        forall|j: int| 1 <= j < spec_simplify_passes(s).len() - 1 ==> !#[trigger] collinear(
            spec_simplify_passes(s)[j - 1], spec_simplify_passes(s)[j], spec_simplify_passes(s)[j + 1]),
        forall|x: Pt| spec_simplify_passes(s).contains(x) ==> s.contains(x),
    decreases s.len(),
{
    if s.len() >= 3 {
        let t = spec_collinear_pass(s, 1);
        lemma_pass(s, 1);
        if t.len() < s.len() {
            lemma_simplify_passes(t);
        }
    }
}

/// Simplifies a path: collapses repeated consecutive points, then removes
/// middle points of collinear triples until none is left. The endpoints are
/// kept, and the result is some of the path's points in their order.
pub fn simplify_path(path: &[Pt]) -> (out: Vec<Pt>)
    ensures
        out@ == spec_simplify_path(path@),
        out@.len() <= path@.len(),
        path@.len() > 0 ==> out@.len() > 0 && out@[0] == path@[0] && out@.last() == path@.last(),
        forall|j: int| 1 <= j < out@.len() - 1 ==> !#[trigger] collinear(out@[j - 1], out@[j], out@[j + 1]),
        forall|x: Pt| out@.contains(x) ==> path@.contains(x),
        path_ok(path@) ==> path_ok(out@),
        is_subseq(out@, path@),
{
    proof {
        lemma_dedup_consecutive(path@);
        lemma_simplify_subseq(path@);
    }
    if path.len() == 0 {
        let v: Vec<Pt> = Vec::new();
        proof { lemma_simplify_passes(spec_dedup_consecutive(path@)); }
        return v;
    }
    let mut out: Vec<Pt> = Vec::new();
    out.push(path[0]);
    let mut k: usize = 1;
    assert(path@.take(1) =~= seq![path@[0]]);
    while k < path.len()
        invariant
            1 <= k <= path.len(),
            out@ == spec_dedup_consecutive(path@.take(k as int)),
            out@.len() > 0,
            out@.len() <= k,
        decreases path.len() - k,
    {
        let p = path[k];
        assert(path@.take(k + 1).drop_last() =~= path@.take(k as int));
        if !pt_eq(p, out[out.len() - 1]) {
            out.push(p);
        }
        k += 1;
    }
    assert(path@.take(path.len() as int) =~= path@);
    let ghost d = out@;
    loop
        invariant
            spec_simplify_passes(out@) == spec_simplify_passes(d),
            out@.len() <= d.len(),
            d == spec_dedup_consecutive(path@),
        ensures
            out@ == spec_simplify_passes(d),
        decreases out@.len(),
    {
        if out.len() < 3 {
            break;
        }
        let ghost start = out@;
        let mut changed = false;
        let mut i: usize = 1;
        while i < out.len() - 1
            invariant
                1 <= i,
                out@.len() >= 2,
                out@.len() <= start.len(),
                start.len() >= 3,
                spec_collinear_pass(out@, i as int) == spec_collinear_pass(start, 1),
                changed == (out@.len() < start.len()),
            decreases out@.len() - i,
        {
            let a = out[i - 1];
            let b = out[i];
            let c = out[i + 1];
            if (a.0 == b.0 && b.0 == c.0) || (a.1 == b.1 && b.1 == c.1) {
                out.remove(i);
                changed = true;
            } else {
                i += 1;
            }
        }
        assert(spec_collinear_pass(out@, i as int) == out@);
        proof {
            lemma_pass(start, 1);
        }
        if !changed {
            assert(out@ == start);
            break;
        }
    }
    proof {
        lemma_simplify_passes(d);
        lemma_simplify_passes(out@);
        if path_ok(path@) {
            assert forall|i: int| 0 <= i < out@.len() implies pt_ok(#[trigger] out@[i]) by {
                assert(out@.contains(out@[i]));
                assert(path@.contains(out@[i]));
                let m = choose|m: int| 0 <= m < path@.len() && path@[m] == out@[i];
                assert(pt_ok(path@[m]));
            }
        }
    }
    out
}

/// Simplifying a path keeps its endpoints and its points' bounds, and never
/// lengthens it.
pub proof fn lemma_simplify_endpoints(p: Seq<Pt>)
    ensures
        spec_simplify_path(p).len() <= p.len(),
        p.len() > 0 ==> spec_simplify_path(p).len() > 0,
        p.len() > 0 ==> spec_simplify_path(p)[0] == p[0],
        p.len() > 0 ==> spec_simplify_path(p).last() == p.last(),
        path_ok(p) ==> path_ok(spec_simplify_path(p)),
{
    lemma_dedup_consecutive(p);
    lemma_simplify_passes(spec_dedup_consecutive(p));
    let r = spec_simplify_path(p);
    if path_ok(p) {
        assert forall|i: int| 0 <= i < r.len() implies pt_ok(#[trigger] r[i]) by {
            assert(r.contains(r[i]));
            assert(spec_dedup_consecutive(p).contains(r[i]));
            assert(p.contains(r[i]));
            let m = choose|m: int| 0 <= m < p.len() && p[m] == r[i];
            assert(pt_ok(p[m]));
        }
    }
}

/// One step of a path runs along a vertical or a horizontal line.
pub open spec fn step_orth(a: Pt, b: Pt) -> bool {
    a.0 == b.0 || a.1 == b.1
}

/// Every step of the path is vertical or horizontal.
pub open spec fn orthogonal(p: Seq<Pt>) -> bool {
    forall|i: int| 0 <= i < p.len() - 1 ==> #[trigger] step_orth(p[i], p[i + 1])
}

proof fn lemma_dedup_orth(s: Seq<Pt>)
    requires orthogonal(s),
    ensures orthogonal(spec_dedup_consecutive(s)),
    decreases s.len(),
{
    if s.len() > 1 {
        let t = s.drop_last();
        assert forall|i: int| 0 <= i < t.len() - 1 implies #[trigger] step_orth(t[i], t[i + 1]) by {
            assert(step_orth(s[i], s[i + 1]));
        }
        lemma_dedup_orth(t);
        lemma_dedup_consecutive(t);
        let prev = spec_dedup_consecutive(t);
        if prev.last() != s.last() {
            let r = prev.push(s.last());
            let k = s.len() - 2;
            assert(step_orth(s[k], s[k + 1]));
            assert forall|i: int| 0 <= i < r.len() - 1 implies #[trigger] step_orth(r[i], r[i + 1]) by {
                if i < prev.len() - 1 {
                    assert(r[i] == prev[i] && r[i + 1] == prev[i + 1]);
                    assert(step_orth(prev[i], prev[i + 1]));
                } else {
                    assert(r[i] == prev.last() && prev.last() == t.last());
                }
            }
        }
    }
}

proof fn lemma_pass_orth(s: Seq<Pt>, i: int)
    requires orthogonal(s), 1 <= i,
    ensures orthogonal(spec_collinear_pass(s, i)),
    decreases s.len() - i,
{
    if i + 1 >= s.len() {
    } else if collinear(s[i - 1], s[i], s[i + 1]) {
        let t = s.remove(i);
        assert forall|j: int| 0 <= j < t.len() - 1 implies #[trigger] step_orth(t[j], t[j + 1]) by {
            if j < i - 1 {
                assert(t[j] == s[j] && t[j + 1] == s[j + 1]);
                assert(step_orth(s[j], s[j + 1]));
            } else if j == i - 1 {
                assert(t[j] == s[i - 1] && t[j + 1] == s[i + 1]);
                assert(collinear(s[i - 1], s[i], s[i + 1]));
            } else {
                let k = j + 1;
                assert(t[j] == s[k] && t[j + 1] == s[k + 1]);
                assert(step_orth(s[k], s[k + 1]));
            }
        }
        lemma_pass_orth(t, i);
    } else {
        lemma_pass_orth(s, i + 1);
    }
}

proof fn lemma_passes_orth(s: Seq<Pt>)
    requires orthogonal(s),
    ensures orthogonal(spec_simplify_passes(s)),
    decreases s.len(),
{
    if s.len() >= 3 {
        let t = spec_collinear_pass(s, 1);
        lemma_pass_orth(s, 1);
        if t.len() < s.len() {
            lemma_passes_orth(t);
        }
    }
}

/// Simplifying an orthogonal path leaves it orthogonal.
pub proof fn lemma_simplify_orth(p: Seq<Pt>)
    requires orthogonal(p),
    ensures orthogonal(spec_simplify_path(p)),
{
    lemma_dedup_orth(p);
    lemma_passes_orth(spec_dedup_consecutive(p));
}

/// `r` picks points of `p` at the strictly increasing positions `f`.
pub open spec fn subseq_via(r: Seq<Pt>, p: Seq<Pt>, f: spec_fn(int) -> int) -> bool {
    &&& forall|i: int| 0 <= i < r.len() ==> 0 <= #[trigger] f(i) < p.len() && r[i] == p[f(i)]
    &&& forall|i: int, j: int| 0 <= i < j < r.len() ==> #[trigger] f(i) < #[trigger] f(j)
}

/// `r` is `p` with some points left out, the rest in their order.
pub open spec fn is_subseq(r: Seq<Pt>, p: Seq<Pt>) -> bool {
    exists|f: spec_fn(int) -> int| #[trigger] subseq_via(r, p, f)
}

proof fn lemma_subseq_trans(a: Seq<Pt>, b: Seq<Pt>, c: Seq<Pt>)
    requires is_subseq(a, b), is_subseq(b, c),
    ensures is_subseq(a, c),
{
    let f = choose|f: spec_fn(int) -> int| #[trigger] subseq_via(a, b, f);
    let g = choose|g: spec_fn(int) -> int| #[trigger] subseq_via(b, c, g);
    let h = |i: int| g(f(i));
    assert forall|i: int| 0 <= i < a.len() implies 0 <= #[trigger] h(i) < c.len() && a[i] == c[h(i)] by {
        assert(0 <= f(i) < b.len());
        let fi = f(i);
        assert(0 <= g(fi) < c.len() && b[fi] == c[g(fi)]);
    }
    assert forall|i: int, j: int| 0 <= i < j < a.len() implies #[trigger] h(i) < #[trigger] h(j) by {
        assert(f(i) < f(j));
        let fi = f(i);
        let fj = f(j);
        assert(0 <= fi < b.len() && 0 <= fj < b.len());
        assert(g(fi) < g(fj));
    }
    assert(subseq_via(a, c, h));
}

proof fn lemma_subseq_refl(a: Seq<Pt>)
    ensures is_subseq(a, a),
{
    let f = |i: int| i;
    assert(subseq_via(a, a, f));
}

proof fn lemma_subseq_remove(s: Seq<Pt>, k: int)
    requires 0 <= k < s.len(),
    ensures is_subseq(s.remove(k), s),
{
    let f = |i: int| if i < k { i } else { i + 1 };
    assert(subseq_via(s.remove(k), s, f));
}

proof fn lemma_dedup_subseq(s: Seq<Pt>)
    ensures is_subseq(spec_dedup_consecutive(s), s),
    decreases s.len(),
{
    if s.len() <= 1 {
        lemma_subseq_refl(s);
    } else {
        let t = s.drop_last();
        lemma_dedup_subseq(t);
        let prev = spec_dedup_consecutive(t);
        let f = choose|f: spec_fn(int) -> int| #[trigger] subseq_via(prev, t, f);
        if prev.last() == s.last() {
            let g = |i: int| f(i);
            assert(subseq_via(prev, s, g));
        } else {
            let r = prev.push(s.last());
            let g = |i: int| if i < prev.len() { f(i) } else { s.len() - 1 };
            assert forall|i: int, j: int| 0 <= i < j < r.len() implies #[trigger] g(i) < #[trigger] g(j) by {
                if j < prev.len() { assert(f(i) < f(j)); } else { assert(0 <= f(i) < t.len()); }
            }
            assert forall|i: int| 0 <= i < r.len() implies 0 <= #[trigger] g(i) < s.len() && r[i] == s[g(i)] by {
                if i < prev.len() { assert(0 <= f(i) < t.len() && prev[i] == t[f(i)]); }
            }
            assert(subseq_via(r, s, g));
        }
    }
}

proof fn lemma_pass_subseq(s: Seq<Pt>, i: int)
    requires 1 <= i,
    ensures is_subseq(spec_collinear_pass(s, i), s),
    decreases s.len() - i,
{
    if i + 1 >= s.len() {
        lemma_subseq_refl(s);
    } else if collinear(s[i - 1], s[i], s[i + 1]) {
        lemma_pass_subseq(s.remove(i), i);
        lemma_subseq_remove(s, i);
        lemma_subseq_trans(spec_collinear_pass(s.remove(i), i), s.remove(i), s);
    } else {
        lemma_pass_subseq(s, i + 1);
    }
}

proof fn lemma_passes_subseq(s: Seq<Pt>)
    ensures is_subseq(spec_simplify_passes(s), s),
    decreases s.len(),
{
    if s.len() < 3 {
        lemma_subseq_refl(s);
    } else {
        let t = spec_collinear_pass(s, 1);
        lemma_pass_subseq(s, 1);
        if t.len() < s.len() {
            lemma_passes_subseq(t);
            lemma_subseq_trans(spec_simplify_passes(t), t, s);
        }
    }
}

/// Simplifying keeps some of the path's points, in their order.
pub proof fn lemma_simplify_subseq(p: Seq<Pt>)
    ensures is_subseq(spec_simplify_path(p), p),
{
    lemma_dedup_subseq(p);
    lemma_passes_subseq(spec_dedup_consecutive(p));
    lemma_subseq_trans(spec_simplify_path(p), spec_dedup_consecutive(p), p);
}

} // verus!
