//! Edge routing: collision and spacing checks between paths and node
//! rectangles, port selection, and the candidate-path router.
use vstd::prelude::*;
use crate::geometry::{
    Pt, Rect, Seg, Side, Shape, iabs, imin, imax, path_ok, pt_ok, rect_ok, rects_ok, coord_ok,
    spec_seg_hits_rect, spec_seg_too_close, spec_seg_contains_point, seg_hits_rect,
    seg_too_close_to_rect, seg_contains_point, abs_i32, min_i32, max_i32, pt_eq, STROKE_WIDTH,
    MIN_CLOSE_VIOLATION, MIN_LINE_GAP,
};
use crate::path::{EdgePath, spec_path_segments, path_segments, seg_count, spec_simplify_path, simplify_path,
    spec_plen, spec_bends, path_len_and_bends, copy_path,
    lemma_simplify_endpoints};
use crate::text::label_is;

verus! {

/// Whether `a` and `b` are the back edge (`next`) and exit edge (`done`) of
/// the same loop node.
pub open spec fn spec_loop_siblings(a: EdgePath, b: EdgePath) -> bool {
    ((a.label is Some && a.label->0@ == "next"@) && (b.label is Some && b.label->0@ == "done"@) && a.to == b.from)
    || ((a.label is Some && a.label->0@ == "done"@) && (b.label is Some && b.label->0@ == "next"@) && a.from == b.to)
}

pub fn is_loop_next_done_siblings(a: &EdgePath, b: &EdgePath) -> (r: bool)
    ensures r == spec_loop_siblings(*a, *b),
{
    (label_is(&a.label, "next") && label_is(&b.label, "done") && a.to == b.from)
        || (label_is(&a.label, "done") && label_is(&b.label, "next") && a.from == b.to)
}

pub open spec fn non_orth(a: Pt, b: Pt) -> bool {
    a.0 != b.0 && a.1 != b.1
}

/// Whether segment `i` of `path` is diagonal or hits, or runs too close to,
/// the rectangle of a node other than `src` and `dst`.
pub open spec fn seg_collides(path: Seq<Pt>, rects: Seq<Rect>, src: usize, dst: usize, i: int) -> bool {
    non_orth(path[i], path[i + 1]) || exists|k: int| 0 <= k < rects.len() && k != src && k != dst
        && (spec_seg_hits_rect(path[i], path[i + 1], #[trigger] rects[k])
            || spec_seg_too_close(path[i], path[i + 1], rects[k]))
}

pub open spec fn spec_path_collides(path: Seq<Pt>, rects: Seq<Rect>, src: usize, dst: usize) -> bool {
    exists|i: int| 0 <= i < seg_count(path) && #[trigger] seg_collides(path, rects, src, dst, i)
}

/// Whether any segment of `path` is diagonal or conflicts with a node other
/// than the edge's own endpoints.
pub fn path_collides(path: &[Pt], rects: &[Rect], src: usize, dst: usize) -> (r: bool)
    requires path_ok(path@), rects_ok(rects@),
    ensures r == spec_path_collides(path@, rects@, src, dst),
{
    let n = if path.len() == 0 { 0 } else { path.len() - 1 };
    let mut i: usize = 0;
    while i < n
        invariant
            n == seg_count(path@),
            i <= n,
            path_ok(path@),
            rects_ok(rects@),
            forall|j: int| 0 <= j < i ==> !#[trigger] seg_collides(path@, rects@, src, dst, j),
        decreases n - i,
    {
        let a = path[i];
        let b = path[i + 1];
        if a.0 != b.0 && a.1 != b.1 {
            assert(seg_collides(path@, rects@, src, dst, i as int));
            return true;
        }
        let mut k: usize = 0;
        while k < rects.len()
            invariant
                i < n,
                n == seg_count(path@),
                a == path@[i as int],
                b == path@[i + 1],
                pt_ok(a), pt_ok(b),
                rects_ok(rects@),
                k <= rects.len(),
                forall|q: int| 0 <= q < k && q != src && q != dst ==> !(spec_seg_hits_rect(a, b, #[trigger] rects@[q])
                    || spec_seg_too_close(a, b, rects@[q])),
            decreases rects.len() - k,
        {
            if k != src && k != dst {
                let r = rects[k];
                if seg_hits_rect(a, b, r) || seg_too_close_to_rect(a, b, r) {
                    assert(seg_collides(path@, rects@, src, dst, i as int));
                    return true;
                }
            }
            k += 1;
        }
        assert(!seg_collides(path@, rects@, src, dst, i as int));
        i += 1;
    }
    false
}

/// Whether segment `i` of `path` keeps clear of rectangle `k`: the source
/// block may only be touched by the first segment at the source anchor, the
/// destination block only by the last segment at the destination anchor, and
/// other blocks must be neither hit nor run past too closely.
pub open spec fn seg_respects_rect(path: Seq<Pt>, rects: Seq<Rect>, src: usize, dst: usize, i: int, k: int) -> bool {
    let a = path[i];
    let b = path[i + 1];
    if k == src {
        !(spec_seg_hits_rect(a, b, rects[k]) && !(i == 0 && spec_seg_contains_point(a, b, path[0])))
    } else if k == dst {
        !(spec_seg_hits_rect(a, b, rects[k])
            && !(i == path.len() - 2 && spec_seg_contains_point(a, b, path.last())))
    } else {
        !(spec_seg_hits_rect(a, b, rects[k]) || spec_seg_too_close(a, b, rects[k]))
    }
}

pub open spec fn seg_respects_blocks(path: Seq<Pt>, rects: Seq<Rect>, src: usize, dst: usize, i: int) -> bool {
    !non_orth(path[i], path[i + 1])
        && forall|k: int| 0 <= k < rects.len() ==> #[trigger] seg_respects_rect(path, rects, src, dst, i, k)
}

pub open spec fn spec_respects_blocks(path: Seq<Pt>, rects: Seq<Rect>, src: usize, dst: usize) -> bool {
    path.len() >= 2 && forall|i: int| 0 <= i < path.len() - 1 ==> #[trigger] seg_respects_blocks(path, rects, src, dst, i)
}

/// Whether `path` (of at least two points) is orthogonal and keeps clear of
/// all node blocks, touching its own endpoints' blocks only at the anchors.
pub fn path_respects_block_constraints(path: &[Pt], rects: &[Rect], src_id: usize, dst_id: usize) -> (r: bool)
    requires path_ok(path@), rects_ok(rects@),
    ensures r == spec_respects_blocks(path@, rects@, src_id, dst_id),
{
    if path.len() < 2 {
        return false;
    }
    let src_pt = path[0];
    let dst_pt = path[path.len() - 1];
    let last_seg_idx = path.len() - 2;
    let n = path.len() - 1;
    let mut i: usize = 0;
    while i < n
        invariant
            path@.len() >= 2,
            n == path@.len() - 1,
            last_seg_idx == path@.len() - 2,
            src_pt == path@[0],
            dst_pt == path@.last(),
            i <= n,
            path_ok(path@),
            rects_ok(rects@),
            forall|j: int| 0 <= j < i ==> #[trigger] seg_respects_blocks(path@, rects@, src_id, dst_id, j),
        decreases n - i,
    {
        let a = path[i];
        let b = path[i + 1];
        if a.0 != b.0 && a.1 != b.1 {
            assert(!seg_respects_blocks(path@, rects@, src_id, dst_id, i as int));
            return false;
        }
        let mut k: usize = 0;
        while k < rects.len()
            invariant
                i < n,
                n == path@.len() - 1,
                last_seg_idx == path@.len() - 2,
                src_pt == path@[0],
                dst_pt == path@.last(),
                a == path@[i as int],
                b == path@[i + 1],
                pt_ok(a), pt_ok(b),
                rects_ok(rects@),
                k <= rects.len(),
                forall|q: int| 0 <= q < k ==> #[trigger] seg_respects_rect(path@, rects@, src_id, dst_id, i as int, q),
            decreases rects.len() - k,
        {
            let r = rects[k];
            if k == src_id {
                if seg_hits_rect(a, b, r) && !(i == 0 && seg_contains_point(a, b, src_pt)) {
                    assert(!seg_respects_rect(path@, rects@, src_id, dst_id, i as int, k as int));
                    assert(!seg_respects_blocks(path@, rects@, src_id, dst_id, i as int));
                    return false;
                }
            } else if k == dst_id {
                if seg_hits_rect(a, b, r) && !(i == last_seg_idx && seg_contains_point(a, b, dst_pt)) {
                    assert(!seg_respects_rect(path@, rects@, src_id, dst_id, i as int, k as int));
                    assert(!seg_respects_blocks(path@, rects@, src_id, dst_id, i as int));
                    return false;
                }
            } else if seg_hits_rect(a, b, r) || seg_too_close_to_rect(a, b, r) {
                assert(!seg_respects_rect(path@, rects@, src_id, dst_id, i as int, k as int));
                assert(!seg_respects_blocks(path@, rects@, src_id, dst_id, i as int));
                return false;
            }
            k += 1;
        }
        assert(seg_respects_blocks(path@, rects@, src_id, dst_id, i as int));
        i += 1;
    }
    true
}

/// Two segments of the same orientation that overlap in span and lie within
/// stroke distance of each other.
pub open spec fn segs_clash(s1: Seg, s2: Seg) -> bool {
    s1.0 != 'x' && s2.0 != 'x' && s1.0 == s2.0
        && imin(s1.3 as int, s2.3 as int) - imax(s1.2 as int, s2.2 as int) > 0
        && iabs(s1.1 - s2.1) <= STROKE_WIDTH * 2 + 1
}

/// Whether an existing edge may share segments with a candidate from
/// `src_id` starting at `start`: only siblings leaving the same anchor may.
pub open spec fn may_share(e: EdgePath, src_id: usize, start: Pt) -> bool {
    e.from == src_id && e.path@.len() > 0 && e.path@[0] == start
}

pub open spec fn spec_respects_parallel(path: Seq<Pt>, src_id: usize, existing: Seq<EdgePath>) -> bool {
    path.len() >= 2 && forall|j: int, p: int, q: int|
        0 <= j < existing.len() && 0 <= p < spec_path_segments(path).len()
            && 0 <= q < spec_path_segments(existing[j].path@).len()
            && !may_share(existing[j], src_id, path[0])
            ==> !#[trigger] segs_clash(spec_path_segments(path)[p], spec_path_segments(existing[j].path@)[q])
}

pub open spec fn segs_ok(s: Seq<Seg>) -> bool {
    forall|i: int| 0 <= i < s.len() ==> coord_ok((#[trigger] s[i]).1 as int) && coord_ok(s[i].2 as int) && coord_ok(s[i].3 as int)
}

pub proof fn lemma_path_segs_ok(p: Seq<Pt>)
    requires path_ok(p),
    ensures segs_ok(spec_path_segments(p)),
{
    assert forall|i: int| 0 <= i < spec_path_segments(p).len() implies
        coord_ok((#[trigger] spec_path_segments(p)[i]).1 as int)
        && coord_ok(spec_path_segments(p)[i].2 as int) && coord_ok(spec_path_segments(p)[i].3 as int) by {
        assert(pt_ok(p[i]) && pt_ok(p[i + 1]));
    }
}

pub open spec fn edges_ok(es: Seq<EdgePath>) -> bool {
    forall|j: int| 0 <= j < es.len() ==> path_ok((#[trigger] es[j]).path@)
}

/// Whether `path` (of at least two points) avoids running on top of, or
/// within stroke distance alongside, the segments of existing edges, except
/// for siblings leaving the same anchor of the same source.
pub fn path_respects_parallel_constraints(path: &[Pt], src_id: usize, existing: &[EdgePath]) -> (r: bool)
    requires path_ok(path@), edges_ok(existing@),
    ensures r == spec_respects_parallel(path@, src_id, existing@),
{
    if path.len() < 2 {
        return false;
    }
    let cand_start = path[0];
    let mine = path_segments(path);
    proof { lemma_path_segs_ok(path@); }
    let mut j: usize = 0;
    while j < existing.len()
        invariant
            path@.len() >= 2,
            cand_start == path@[0],
            mine@ == spec_path_segments(path@),
            segs_ok(mine@),
            edges_ok(existing@),
            j <= existing.len(),
            forall|jj: int, p: int, q: int|
                0 <= jj < j && 0 <= p < spec_path_segments(path@).len()
                    && 0 <= q < spec_path_segments(existing@[jj].path@).len()
                    && !may_share(existing@[jj], src_id, path@[0])
                    ==> !#[trigger] segs_clash(spec_path_segments(path@)[p], spec_path_segments(existing@[jj].path@)[q]),
        decreases existing.len() - j,
    {
        let e = &existing[j];
        let allow_overlap = e.from == src_id && e.path.len() > 0 && pt_eq(e.path[0], cand_start);
        assert(allow_overlap == may_share(existing@[j as int], src_id, path@[0]));
        let oth = path_segments(&e.path);
        proof { assert(path_ok(existing@[j as int].path@)); lemma_path_segs_ok(e.path@); }
        if !allow_overlap {
            let mut p: usize = 0;
            while p < mine.len()
                invariant
                    j < existing@.len(),
                    !may_share(existing@[j as int], src_id, path@[0]),
                    mine@ == spec_path_segments(path@),
                    oth@ == spec_path_segments(existing@[j as int].path@),
                    segs_ok(mine@),
                    segs_ok(oth@),
                    p <= mine.len(),
                    forall|pp: int, q: int| 0 <= pp < p && 0 <= q < oth@.len()
                        ==> !#[trigger] segs_clash(mine@[pp], oth@[q]),
                decreases mine.len() - p,
            {
                let s1 = mine[p];
                let mut q: usize = 0;
                while q < oth.len()
                    invariant
                        j < existing@.len(),
                        !may_share(existing@[j as int], src_id, path@[0]),
                        mine@ == spec_path_segments(path@),
                        oth@ == spec_path_segments(existing@[j as int].path@),
                        s1 == mine@[p as int],
                        p < mine.len(),
                        segs_ok(mine@),
                        segs_ok(oth@),
                        q <= oth.len(),
                        forall|qq: int| 0 <= qq < q ==> !#[trigger] segs_clash(s1, oth@[qq]),
                    decreases oth.len() - q,
                {
                    let s2 = oth[q];
                    assert(coord_ok(s1.1 as int) && coord_ok(s1.2 as int) && coord_ok(s1.3 as int));
                    assert(coord_ok(s2.1 as int) && coord_ok(s2.2 as int) && coord_ok(s2.3 as int));
                    if !(s1.0 == 'x' || s2.0 == 'x' || s1.0 != s2.0) {
                        let overlap = min_i32(s1.3, s2.3) - max_i32(s1.2, s2.2);
                        if overlap > 0 && abs_i32(s1.1 - s2.1) <= STROKE_WIDTH * 2 + 1 {
                            assert(segs_clash(mine@[p as int], oth@[q as int]));
                            return false;
                        }
                    }
                    q += 1;
                }
                p += 1;
            }
        }
        j += 1;
    }
    true
}

/// Penalty for a segment `s1` running alongside an existing segment `s2`:
/// a large cost for lying on top of it, a smaller one for running closer than
/// `MIN_CLOSE_VIOLATION`, and a small one for closer than `MIN_LINE_GAP`.
pub open spec fn pair_penalty(s1: Seg, s2: Seg) -> int {
    if s1.0 != s2.0 || s2.0 == 'x' {
        0
    } else {
        let overlap = imin(s1.3 as int, s2.3 as int) - imax(s1.2 as int, s2.2 as int);
        let d = iabs(s1.1 - s2.1);
        if overlap <= 0 {
            0
        } else if d == 0 {
            120_000 + overlap * 35
        } else if d < MIN_CLOSE_VIOLATION {
            (MIN_CLOSE_VIOLATION - d) * 120 + overlap
        } else if d < MIN_LINE_GAP {
            (MIN_LINE_GAP - d) * 6
        } else {
            0
        }
    }
}

pub open spec fn list_penalty(s1: Seg, l: Seq<Seg>, k: int) -> int
    decreases k,
{
    if k <= 0 { 0 } else { list_penalty(s1, l, k - 1) + pair_penalty(s1, l[k - 1]) }
}

pub open spec fn lists_penalty(s1: Seg, ls: Seq<Seq<Seg>>, j: int) -> int
    decreases j,
{
    if j <= 0 { 0 } else { lists_penalty(s1, ls, j - 1) + list_penalty(s1, ls[j - 1], ls[j - 1].len() as int) }
}

/// Cost of one candidate segment: a diagonal costs 20000, an orthogonal
/// segment the sum of its pair penalties against every existing segment.
pub open spec fn seg_cost(s1: Seg, ls: Seq<Seq<Seg>>) -> int {
    if s1.0 == 'x' { 20_000 } else { lists_penalty(s1, ls, ls.len() as int) }
}

pub open spec fn segs_penalty(segs: Seq<Seg>, ls: Seq<Seq<Seg>>, i: int) -> int
    decreases i,
{
    if i <= 0 { 0 } else { segs_penalty(segs, ls, i - 1) + seg_cost(segs[i - 1], ls) }
}

/// Total number of segments in the first `j` lists.
pub open spec fn total_len(ls: Seq<Seq<Seg>>, j: int) -> int
    decreases j,
{
    if j <= 0 { 0 } else { total_len(ls, j - 1) + ls[j - 1].len() }
}

pub open spec fn lists_ok(ls: Seq<Seq<Seg>>) -> bool {
    forall|j: int| 0 <= j < ls.len() ==> segs_ok(#[trigger] ls[j])
}

/// Bound on the sizes for which penalty sums fit in `i64`: at most 2^20
/// candidate segments and 2^26 segment pairs.
pub open spec fn penalty_sizes_ok(n: int, ls: Seq<Seq<Seg>>) -> bool {
    n <= 0x10_0000 && n * total_len(ls, ls.len() as int) <= 0x400_0000
}

pub open spec fn penalty_cap() -> int { 0x10_0000 * 20_000 + 0x400_0000 * pair_bound() }

pub open spec fn pair_bound() -> int { 0x8_0000_0000 }

proof fn lemma_pair_bound(s1: Seg, s2: Seg)
    requires
        coord_ok(s1.1 as int), coord_ok(s1.2 as int), coord_ok(s1.3 as int),
        coord_ok(s2.1 as int), coord_ok(s2.2 as int), coord_ok(s2.3 as int),
    ensures 0 <= pair_penalty(s1, s2) <= pair_bound(),
{
}

proof fn lemma_list_bound(s1: Seg, l: Seq<Seg>, k: int)
    requires
        0 <= k <= l.len(),
        coord_ok(s1.1 as int), coord_ok(s1.2 as int), coord_ok(s1.3 as int),
        segs_ok(l),
    ensures 0 <= list_penalty(s1, l, k) <= k * pair_bound(),
    decreases k,
{
    if k > 0 {
        lemma_list_bound(s1, l, k - 1);
        lemma_pair_bound(s1, l[k - 1]);
    }
}

proof fn lemma_total_len_nonneg(ls: Seq<Seq<Seg>>, a: int)
    ensures 0 <= total_len(ls, a),
    decreases a,
{
    if a > 0 {
        lemma_total_len_nonneg(ls, a - 1);
    }
}

proof fn lemma_lists_bound(s1: Seg, ls: Seq<Seq<Seg>>, j: int)
    requires
        0 <= j <= ls.len(),
        coord_ok(s1.1 as int), coord_ok(s1.2 as int), coord_ok(s1.3 as int),
        lists_ok(ls),
    ensures 0 <= lists_penalty(s1, ls, j) <= total_len(ls, j) * pair_bound(),
    decreases j,
{
    if j > 0 {
        lemma_lists_bound(s1, ls, j - 1);
        lemma_list_bound(s1, ls[j - 1], ls[j - 1].len() as int);
        assert(total_len(ls, j) * pair_bound() == total_len(ls, j - 1) * pair_bound() + ls[j - 1].len() * pair_bound()) by (nonlinear_arith)
            requires total_len(ls, j) == total_len(ls, j - 1) + ls[j - 1].len();
    }
}

proof fn lemma_segs_bound(segs: Seq<Seg>, ls: Seq<Seq<Seg>>, i: int)
    requires
        0 <= i <= segs.len(),
        segs_ok(segs),
        lists_ok(ls),
    ensures
        0 <= segs_penalty(segs, ls, i),
        segs_penalty(segs, ls, i) <= i * 20_000 + i * total_len(ls, ls.len() as int) * pair_bound(),
    decreases i,
{
    if i > 0 {
        lemma_segs_bound(segs, ls, i - 1);
        let s1 = segs[i - 1];
        assert(coord_ok(s1.1 as int) && coord_ok(s1.2 as int) && coord_ok(s1.3 as int));
        lemma_lists_bound(s1, ls, ls.len() as int);
        let t = total_len(ls, ls.len() as int);
        lemma_total_len_nonneg(ls, ls.len() as int);
        assert(i * t * pair_bound() == (i - 1) * t * pair_bound() + t * pair_bound()) by (nonlinear_arith);
    }
}

pub proof fn lemma_segs_cap(segs: Seq<Seg>, ls: Seq<Seq<Seg>>, i: int)
    requires
        0 <= i <= segs.len(),
        segs_ok(segs),
        lists_ok(ls),
        penalty_sizes_ok(segs.len() as int, ls),
    ensures
        0 <= segs_penalty(segs, ls, i) <= penalty_cap(),
{
    lemma_segs_bound(segs, ls, i);
    let t = total_len(ls, ls.len() as int);
    lemma_total_len_nonneg(ls, ls.len() as int);
    let n = segs.len() as int;
    assert(i * t <= n * t) by (nonlinear_arith) requires 0 <= i <= n, 0 <= t;
    assert(i * t * pair_bound() <= 0x400_0000 * pair_bound()) by (nonlinear_arith)
        requires i * t <= 0x400_0000, 0 <= i * t;
    assert(0 <= i * t) by (nonlinear_arith) requires 0 <= i, 0 <= t;
}

/// Spacing penalty of a candidate path's segments against the segment
/// lists of already-routed edges.
pub fn path_spacing_penalty_from_segments(path_segs: &[Seg], existing_seg_lists: &[Vec<Seg>]) -> (r: i64)
    requires
        segs_ok(path_segs@),
        lists_ok(existing_seg_lists@.map_values(|v: Vec<Seg>| v@)),
        penalty_sizes_ok(path_segs@.len() as int, existing_seg_lists@.map_values(|v: Vec<Seg>| v@)),
    ensures
        r == segs_penalty(path_segs@, existing_seg_lists@.map_values(|v: Vec<Seg>| v@), path_segs@.len() as int),
{
    let ghost ls = existing_seg_lists@.map_values(|v: Vec<Seg>| v@);
    let mut penalty: i64 = 0;
    let mut i: usize = 0;
    while i < path_segs.len()
        invariant
            ls == existing_seg_lists@.map_values(|v: Vec<Seg>| v@),
            segs_ok(path_segs@),
            lists_ok(ls),
            penalty_sizes_ok(path_segs@.len() as int, ls),
            i <= path_segs.len(),
            penalty == segs_penalty(path_segs@, ls, i as int),
        decreases path_segs.len() - i,
    {
        let s1 = path_segs[i];
        proof {
            lemma_segs_cap(path_segs@, ls, i + 1);
            lemma_segs_cap(path_segs@, ls, i as int);
            lemma_lists_bound(s1, ls, ls.len() as int);
        }
        if s1.0 == 'x' {
            penalty += 20_000;
        } else {
            let mut j: usize = 0;
            while j < existing_seg_lists.len()
                invariant
                    ls == existing_seg_lists@.map_values(|v: Vec<Seg>| v@),
                    s1 == path_segs@[i as int],
                    s1.0 != 'x',
                    coord_ok(s1.1 as int), coord_ok(s1.2 as int), coord_ok(s1.3 as int),
                    lists_ok(ls),
                    segs_ok(path_segs@),
                    i < path_segs.len(),
                    segs_penalty(path_segs@, ls, i + 1) <= penalty_cap(),
                    0 <= segs_penalty(path_segs@, ls, i as int),
                    j <= existing_seg_lists.len(),
                    penalty == segs_penalty(path_segs@, ls, i as int) + lists_penalty(s1, ls, j as int),
                decreases existing_seg_lists.len() - j,
            {
                let oth = &existing_seg_lists[j];
                assert(oth@ == ls[j as int]);
                let mut k: usize = 0;
                while k < oth.len()
                    invariant
                        ls == existing_seg_lists@.map_values(|v: Vec<Seg>| v@),
                        oth@ == ls[j as int],
                        j < ls.len(),
                        s1 == path_segs@[i as int],
                        s1.0 != 'x',
                        coord_ok(s1.1 as int), coord_ok(s1.2 as int), coord_ok(s1.3 as int),
                        lists_ok(ls),
                        segs_ok(path_segs@),
                        i < path_segs.len(),
                        segs_penalty(path_segs@, ls, i + 1) <= penalty_cap(),
                        0 <= segs_penalty(path_segs@, ls, i as int),
                        k <= oth.len(),
                        penalty == segs_penalty(path_segs@, ls, i as int) + lists_penalty(s1, ls, j as int)
                            + list_penalty(s1, oth@, k as int),
                    decreases oth.len() - k,
                {
                    let s2 = oth[k];
                    proof {
                        assert(segs_ok(ls[j as int]));
                        assert(coord_ok(s2.1 as int) && coord_ok(s2.2 as int) && coord_ok(s2.3 as int));
                        lemma_list_bound(s1, oth@, k + 1);
                        lemma_lists_bound(s1, ls, j as int);
                        lemma_lists_bound(s1, ls, ls.len() as int);
                        lemma_partial_lists(s1, ls, j as int, k + 1);
                    }
                    if s1.0 == s2.0 && s2.0 != 'x' {
                        let overlap = min_i32(s1.3, s2.3) - max_i32(s1.2, s2.2);
                        if overlap > 0 {
                            let d = abs_i32(s1.1 - s2.1);
                            if d == 0 {
                                penalty += 120_000 + (overlap as i64 * 35);
                            } else if d < MIN_CLOSE_VIOLATION {
                                penalty += ((MIN_CLOSE_VIOLATION - d) as i64) * 120 + overlap as i64;
                            } else if d < MIN_LINE_GAP {
                                penalty += ((MIN_LINE_GAP - d) as i64) * 6;
                            }
                        }
                    }
                    k += 1;
                }
                j += 1;
            }
        }
        i += 1;
    }
    penalty
}

/// A partial sum inside list `j` never exceeds the full penalty of the lists
/// up to and including `j`.
proof fn lemma_partial_lists(s1: Seg, ls: Seq<Seq<Seg>>, j: int, k: int)
    requires
        0 <= j < ls.len(),
        0 <= k <= ls[j].len(),
        coord_ok(s1.1 as int), coord_ok(s1.2 as int), coord_ok(s1.3 as int),
        lists_ok(ls),
    ensures
        lists_penalty(s1, ls, j) + list_penalty(s1, ls[j], k) <= lists_penalty(s1, ls, ls.len() as int),
    decreases ls.len() - j,
{
    assert(segs_ok(ls[j]));
    lemma_list_mono(s1, ls[j], k, ls[j].len() as int);
    lemma_lists_mono(s1, ls, j + 1, ls.len() as int);
}

proof fn lemma_list_mono(s1: Seg, l: Seq<Seg>, a: int, b: int)
    requires
        0 <= a <= b <= l.len(),
        coord_ok(s1.1 as int), coord_ok(s1.2 as int), coord_ok(s1.3 as int),
        segs_ok(l),
    ensures list_penalty(s1, l, a) <= list_penalty(s1, l, b),
    decreases b - a,
{
    if a < b {
        lemma_list_mono(s1, l, a, b - 1);
        lemma_pair_bound(s1, l[b - 1]);
    }
}

proof fn lemma_lists_mono(s1: Seg, ls: Seq<Seq<Seg>>, a: int, b: int)
    requires
        0 <= a <= b <= ls.len(),
        coord_ok(s1.1 as int), coord_ok(s1.2 as int), coord_ok(s1.3 as int),
        lists_ok(ls),
    ensures lists_penalty(s1, ls, a) <= lists_penalty(s1, ls, b),
    decreases b - a,
{
    if a < b {
        lemma_lists_mono(s1, ls, a, b - 1);
        lemma_list_bound(s1, ls[b - 1], ls[b - 1].len() as int);
    }
}

pub open spec fn first_pt(p: Seq<Pt>) -> Option<Pt> {
    if p.len() > 0 { Some(p[0]) } else { None }
}

/// Segment lists of existing edges as seen by a candidate from `from` whose
/// path starts at `start`; with `skip_siblings`, edges leaving the same
/// anchor of the same source contribute no segments.
pub open spec fn edge_seg_lists(es: Seq<EdgePath>, skip_siblings: bool, from: usize, start: Option<Pt>) -> Seq<Seq<Seg>> {
    es.map_values(|e: EdgePath|
        if skip_siblings && e.from == from && first_pt(e.path@) == start { Seq::<Seg>::empty() } else { spec_path_segments(e.path@) })
}

/// Total number of points in the first `j` edge paths.
pub open spec fn total_pts(es: Seq<EdgePath>, j: int) -> int
    decreases j,
{
    if j <= 0 { 0 } else { total_pts(es, j - 1) + es[j - 1].path@.len() }
}

/// Sizes for which the router's penalty sums fit in `i64`: a candidate of
/// at most 2^10 points against at most 2^16 existing points gives at most
/// 2^26 segment pairs, each costing at most `pair_bound` (2^35), so the sum
/// stays below 2^61.
pub open spec fn route_sizes_ok(path_len: int, es: Seq<EdgePath>) -> bool {
    path_len <= 0x400 && total_pts(es, es.len() as int) <= 0x1_0000
}

proof fn lemma_lists_sizes(es: Seq<EdgePath>, skip: bool, from: usize, start: Option<Pt>, j: int)
    requires 0 <= j <= es.len(), edges_ok(es),
    ensures
        0 <= total_len(edge_seg_lists(es, skip, from, start), j) <= total_pts(es, j),
        lists_ok(edge_seg_lists(es, skip, from, start)),
    decreases j,
{
    let ls = edge_seg_lists(es, skip, from, start);
    assert forall|k: int| 0 <= k < ls.len() implies segs_ok(#[trigger] ls[k]) by {
        assert(path_ok(es[k].path@));
        lemma_path_segs_ok(es[k].path@);
    }
    if j > 0 {
        lemma_lists_sizes(es, skip, from, start, j - 1);
    }
}

pub proof fn lemma_route_sizes(path: Seq<Pt>, es: Seq<EdgePath>, skip: bool, from: usize, start: Option<Pt>)
    requires route_sizes_ok(path.len() as int, es), edges_ok(es),
    ensures
        penalty_sizes_ok(spec_path_segments(path).len() as int, edge_seg_lists(es, skip, from, start)),
        lists_ok(edge_seg_lists(es, skip, from, start)),
{
    let ls = edge_seg_lists(es, skip, from, start);
    lemma_lists_sizes(es, skip, from, start, es.len() as int);
    let n = spec_path_segments(path).len() as int;
    let t = total_len(ls, ls.len() as int);
    assert(n * t <= 0x400 * 0x1_0000) by (nonlinear_arith) requires 0 <= n <= 0x400, 0 <= t <= 0x1_0000;
}

fn edge_lists(existing: &[EdgePath], skip_siblings: bool, from: usize, start: Option<Pt>) -> (out: Vec<Vec<Seg>>)
    ensures out@.map_values(|v: Vec<Seg>| v@) == edge_seg_lists(existing@, skip_siblings, from, start),
{
    let mut out: Vec<Vec<Seg>> = Vec::new();
    let mut j: usize = 0;
    while j < existing.len()
        invariant
            j <= existing.len(),
            out@.len() == j,
            forall|k: int| 0 <= k < j ==> (#[trigger] out@[k])@ == edge_seg_lists(existing@, skip_siblings, from, start)[k],
        decreases existing.len() - j,
    {
        let e = &existing[j];
        let same_start = match start {
            Some(p) => e.path.len() > 0 && pt_eq(e.path[0], p),
            None => e.path.len() == 0,
        };
        assert(same_start == (first_pt(e.path@) == start));
        if skip_siblings && e.from == from && same_start {
            out.push(Vec::new());
        } else {
            out.push(path_segments(&e.path));
        }
        j += 1;
    }
    assert(out@.map_values(|v: Vec<Seg>| v@) =~= edge_seg_lists(existing@, skip_siblings, from, start));
    out
}

pub open spec fn spec_spacing_penalty(path: Seq<Pt>, existing: Seq<EdgePath>) -> int {
    let segs = spec_path_segments(path);
    segs_penalty(segs, edge_seg_lists(existing, false, 0, None), segs.len() as int)
}

pub open spec fn spec_spacing_penalty_for_edge(path: Seq<Pt>, existing: Seq<EdgePath>, from_id: usize) -> int {
    let segs = spec_path_segments(path);
    segs_penalty(segs, edge_seg_lists(existing, true, from_id, first_pt(path)), segs.len() as int)
}

/// Spacing penalty of a candidate path against all existing edges.
pub fn path_spacing_penalty(path: &[Pt], existing: &[EdgePath]) -> (r: i64)
    requires path_ok(path@), edges_ok(existing@), route_sizes_ok(path@.len() as int, existing@),
    ensures r == spec_spacing_penalty(path@, existing@),
{
    let segs = path_segments(path);
    let lists = edge_lists(existing, false, 0, None);
    proof {
        lemma_path_segs_ok(path@);
        lemma_route_sizes(path@, existing@, false, 0, None);
    }
    path_spacing_penalty_from_segments(&segs, &lists)
}

/// Spacing penalty of a candidate path from `from_id` against existing
/// edges, ignoring siblings that leave the same source anchor.
pub fn path_spacing_penalty_for_edge(path: &[Pt], existing: &[EdgePath], from_id: usize) -> (r: i64)
    requires path_ok(path@), edges_ok(existing@), route_sizes_ok(path@.len() as int, existing@),
    ensures r == spec_spacing_penalty_for_edge(path@, existing@, from_id),
{
    let segs = path_segments(path);
    let start = if path.len() > 0 { Some(path[0]) } else { None };
    let lists = edge_lists(existing, true, from_id, start);
    proof {
        lemma_path_segs_ok(path@);
        lemma_route_sizes(path@, existing@, true, from_id, start);
    }
    path_spacing_penalty_from_segments(&segs, &lists)
}

/// Collision cost of segment `i`: 100000 if diagonal, plus for every other
/// node 250000 if the segment crosses it, else 50000 if it runs too close.
pub open spec fn rect_cost(a: Pt, b: Pt, r: Rect) -> int {
    if spec_seg_hits_rect(a, b, r) { 250_000 } else if spec_seg_too_close(a, b, r) { 50_000 } else { 0 }
}

pub open spec fn rects_cost(a: Pt, b: Pt, rects: Seq<Rect>, src: usize, dst: usize, k: int) -> int
    decreases k,
{
    if k <= 0 {
        0
    } else {
        rects_cost(a, b, rects, src, dst, k - 1) + (if k - 1 == src || k - 1 == dst { 0 } else { rect_cost(a, b, rects[k - 1]) })
    }
}

pub open spec fn coll_cost(p: Seq<Pt>, rects: Seq<Rect>, src: usize, dst: usize, i: int) -> int
    decreases i,
{
    if i <= 0 {
        0
    } else {
        coll_cost(p, rects, src, dst, i - 1) + (if non_orth(p[i - 1], p[i]) { 100_000int } else { 0 })
            + rects_cost(p[i - 1], p[i], rects, src, dst, rects.len() as int)
    }
}

pub type Key = (i64, i64, i64, i64);

pub open spec fn key_lt(a: Key, b: Key) -> bool {
    a.0 < b.0 || (a.0 == b.0 && (a.1 < b.1 || (a.1 == b.1 && (a.2 < b.2 || (a.2 == b.2 && a.3 < b.3)))))
}

pub open spec fn max_key() -> Key {
    (i64::MAX, i64::MAX, i64::MAX, i64::MAX)
}

/// Ranking key of a (simplified) candidate path: collision cost, number of
/// segments, length, then 120 per bend plus the spacing penalty.
pub open spec fn cand_key(p: Seq<Pt>, rects: Seq<Rect>, src: usize, dst: usize, existing: Seq<EdgePath>) -> Key {
    (coll_cost(p, rects, src, dst, seg_count(p)) as i64,
     seg_count(p) as i64,
     spec_plen(p, seg_count(p)) as i64,
     (spec_bends(p, seg_count(p)) * 120 + spec_spacing_penalty_for_edge(p, existing, src)) as i64)
}

pub open spec fn cand_valid(p: Seq<Pt>, rects: Seq<Rect>, src: usize, dst: usize, existing: Seq<EdgePath>) -> bool {
    spec_respects_blocks(p, rects, src, dst) && spec_respects_parallel(p, src, existing)
}

/// The best valid and best overall candidate among the first `n` (each with
/// its key); a later candidate replaces an earlier one only with a strictly
/// smaller key.
pub open spec fn best_fold(cands: Seq<Seq<Pt>>, rects: Seq<Rect>, src: usize, dst: usize, existing: Seq<EdgePath>, n: int)
    -> (Option<Seq<Pt>>, Key, Option<Seq<Pt>>, Key)
    decreases n,
{
    if n <= 0 {
        (None, max_key(), None, max_key())
    } else {
        let f = best_fold(cands, rects, src, dst, existing, n - 1);
        let p = spec_simplify_path(cands[n - 1]);
        let k = cand_key(p, rects, src, dst, existing);
        let relaxed = if key_lt(k, f.3) { (Some(p), k) } else { (f.2, f.3) };
        if cand_valid(p, rects, src, dst, existing) && key_lt(k, f.1) {
            (Some(p), k, relaxed.0, relaxed.1)
        } else {
            (f.0, f.1, relaxed.0, relaxed.1)
        }
    }
}

pub open spec fn spec_choose_best(cands: Seq<Seq<Pt>>, rects: Seq<Rect>, src: usize, dst: usize, existing: Seq<EdgePath>) -> Seq<Pt> {
    let f = best_fold(cands, rects, src, dst, existing, cands.len() as int);
    if f.0 is Some { f.0->0 } else if f.2 is Some { f.2->0 } else { Seq::empty() }
}

/// Candidates of at most 2^8 points, so that each one's penalty stays
/// within `route_sizes_ok`.
pub open spec fn cands_ok(cands: Seq<Seq<Pt>>) -> bool {
    forall|i: int| 0 <= i < cands.len() ==> path_ok(#[trigger] cands[i]) && cands[i].len() <= 0x100
}

proof fn lemma_rects_cost_bound(a: Pt, b: Pt, rects: Seq<Rect>, src: usize, dst: usize, k: int)
    requires 0 <= k,
    ensures 0 <= rects_cost(a, b, rects, src, dst, k) <= k * 250_000,
    decreases k,
{
    if k > 0 {
        lemma_rects_cost_bound(a, b, rects, src, dst, k - 1);
    }
}

proof fn lemma_coll_bound(p: Seq<Pt>, rects: Seq<Rect>, src: usize, dst: usize, i: int)
    requires 0 <= i, rects.len() <= 0x10_0000,
    ensures 0 <= coll_cost(p, rects, src, dst, i) <= i * (100_000 + 0x10_0000 * 250_000),
    decreases i,
{
    if i > 0 {
        lemma_coll_bound(p, rects, src, dst, i - 1);
        lemma_rects_cost_bound(p[i - 1], p[i], rects, src, dst, rects.len() as int);
        assert(rects.len() * 250_000 <= 0x10_0000 * 250_000) by (nonlinear_arith) requires rects.len() <= 0x10_0000;
        assert(i * (100_000 + 0x10_0000 * 250_000) == (i - 1) * (100_000 + 0x10_0000 * 250_000) + (100_000 + 0x10_0000 * 250_000)) by (nonlinear_arith);
    }
}

proof fn lemma_plen_bound(p: Seq<Pt>, n: int)
    requires 0 <= n, n == 0 || n < p.len(), path_ok(p),
    ensures 0 <= spec_plen(p, n) <= n * 0x40_0000,
    decreases n,
{
    if n > 0 {
        lemma_plen_bound(p, n - 1);
        assert(pt_ok(p[n - 1]) && pt_ok(p[n]));
    }
}

proof fn lemma_bends_le(p: Seq<Pt>, n: int)
    requires 0 <= n,
    ensures 0 <= spec_bends(p, n) <= n,
    decreases n,
{
    if n > 1 {
        lemma_bends_le(p, n - 1);
    }
}

/// Collision cost of a simplified candidate path.
fn collision_cost(p: &[Pt], rects: &[Rect], src_id: usize, dst_id: usize) -> (r: i64)
    requires path_ok(p@), rects_ok(rects@), rects@.len() <= 0x10_0000, p@.len() <= 0x100,
    ensures r == coll_cost(p@, rects@, src_id, dst_id, seg_count(p@)),
{
    let n = if p.len() == 0 { 0 } else { p.len() - 1 };
    let mut coll: i64 = 0;
    let mut i: usize = 0;
    while i < n
        invariant
            n == seg_count(p@),
            n <= 0x100,
            i <= n,
            path_ok(p@), rects_ok(rects@), rects@.len() <= 0x10_0000,
            coll == coll_cost(p@, rects@, src_id, dst_id, i as int),
        decreases n - i,
    {
        let a = p[i];
        let b = p[i + 1];
        proof {
            lemma_coll_bound(p@, rects@, src_id, dst_id, i as int);
            assert(i * (100_000 + 0x10_0000 * 250_000) <= 0x100 * (100_000 + 0x10_0000 * 250_000)) by (nonlinear_arith)
                requires i <= 0x100;
        }
        if a.0 != b.0 && a.1 != b.1 {
            coll += 100_000;
        }
        let mut k: usize = 0;
        while k < rects.len()
            invariant
                i < n, n == seg_count(p@), n <= 0x100,
                a == p@[i as int], b == p@[i + 1],
                pt_ok(a), pt_ok(b),
                path_ok(p@), rects_ok(rects@), rects@.len() <= 0x10_0000,
                k <= rects.len(),
                0 <= coll_cost(p@, rects@, src_id, dst_id, i as int) <= 0x100 * (100_000 + 0x10_0000 * 250_000),
                coll == coll_cost(p@, rects@, src_id, dst_id, i as int) + (if non_orth(a, b) { 100_000int } else { 0 })
                    + rects_cost(a, b, rects@, src_id, dst_id, k as int),
            decreases rects.len() - k,
        {
            proof {
                lemma_rects_cost_bound(a, b, rects@, src_id, dst_id, k as int);
                assert(k * 250_000 <= 0x10_0000 * 250_000) by (nonlinear_arith) requires k <= 0x10_0000;
            }
            if k != src_id && k != dst_id {
                let r = rects[k];
                if seg_hits_rect(a, b, r) {
                    coll += 250_000;
                } else if seg_too_close_to_rect(a, b, r) {
                    coll += 50_000;
                }
            }
            k += 1;
        }
        i += 1;
    }
    coll
}

fn key_less(a: Key, b: Key) -> (r: bool)
    ensures r == key_lt(a, b),
{
    a.0 < b.0 || (a.0 == b.0 && (a.1 < b.1 || (a.1 == b.1 && (a.2 < b.2 || (a.2 == b.2 && a.3 < b.3)))))
}

/// Simplifies each candidate and returns the first one with the smallest key
/// among those that respect the block and parallel constraints; failing
/// that, the first with the smallest key overall; empty if there are none.
pub fn choose_best_path(cands: Vec<Vec<Pt>>, rects: &[Rect], src_id: usize, dst_id: usize, existing: &[EdgePath]) -> (best: Vec<Pt>)
    requires
        cands_ok(cands@.map_values(|v: Vec<Pt>| v@)),
        rects_ok(rects@),
        rects@.len() <= 0x10_0000,
        edges_ok(existing@),
        total_pts(existing@, existing@.len() as int) <= 0x1_0000,
    ensures
        best@ == spec_choose_best(cands@.map_values(|v: Vec<Pt>| v@), rects@, src_id, dst_id, existing@),
{
    let ghost cs = cands@.map_values(|v: Vec<Pt>| v@);
    let mut best: Option<Vec<Pt>> = None;
    let mut best_key: Key = (i64::MAX, i64::MAX, i64::MAX, i64::MAX);
    let mut best_relaxed: Option<Vec<Pt>> = None;
    let mut best_relaxed_key: Key = (i64::MAX, i64::MAX, i64::MAX, i64::MAX);
    let mut ci: usize = 0;
    while ci < cands.len()
        invariant
            cs == cands@.map_values(|v: Vec<Pt>| v@),
            cands_ok(cs),
            rects_ok(rects@), rects@.len() <= 0x10_0000,
            edges_ok(existing@),
            total_pts(existing@, existing@.len() as int) <= 0x1_0000,
            ci <= cands.len(),
            ({
                let f = best_fold(cs, rects@, src_id, dst_id, existing@, ci as int);
                &&& (match best { Some(b) => f.0 == Some(b@), None => f.0 is None })
                &&& f.1 == best_key
                &&& (match best_relaxed { Some(b) => f.2 == Some(b@), None => f.2 is None })
                &&& f.3 == best_relaxed_key
            }),
        decreases cands.len() - ci,
    {
        assert(path_ok(cs[ci as int]) && cs[ci as int].len() <= 0x100);
        let p = simplify_path(&cands[ci]);
        let coll = collision_cost(&p, rects, src_id, dst_id);
        let segs: i64 = if p.len() == 0 { 0 } else { (p.len() - 1) as i64 };
        let spacing = path_spacing_penalty_for_edge(&p, existing, src_id);
        proof {
            lemma_plen_bound(p@, seg_count(p@));
            assert(seg_count(p@) * 0x40_0000 <= 0x100 * 0x40_0000) by (nonlinear_arith) requires seg_count(p@) <= 0x100;
            lemma_bends_le(p@, seg_count(p@));
            let segs_s = spec_path_segments(p@);
            let ls = edge_seg_lists(existing@, true, src_id, first_pt(p@));
            lemma_route_sizes(p@, existing@, true, src_id, first_pt(p@));
            lemma_path_segs_ok(p@);
            lemma_segs_cap(segs_s, ls, segs_s.len() as int);
        }
        let (plen, bends) = path_len_and_bends(&p);
        let secondary = bends as i64 * 120 + spacing;
        let key: Key = (coll, segs, plen as i64, secondary);
        assert(key == cand_key(p@, rects@, src_id, dst_id, existing@));
        if key_less(key, best_relaxed_key) {
            best_relaxed_key = key;
            best_relaxed = Some(copy_path(&p));
        }
        if path_respects_block_constraints(&p, rects, src_id, dst_id)
            && path_respects_parallel_constraints(&p, src_id, existing)
            && key_less(key, best_key)
        {
            best_key = key;
            best = Some(p);
        }
        ci += 1;
    }
    match best {
        Some(b) => b,
        None => match best_relaxed {
            Some(b) => b,
            None => Vec::new(),
        },
    }
}

/// Whether a vertical run at `x` from `y_lo` to `y_hi` crosses a node other
/// than `src` and `dst`.
pub open spec fn vertical_blocked(x: i32, y_lo: i32, y_hi: i32, rects: Seq<Rect>, src: usize, dst: usize) -> bool {
    exists|k: int| 0 <= k < rects.len() && k != src && k != dst && spec_seg_hits_rect((x, y_lo), (x, y_hi), #[trigger] rects[k])
}

pub open spec fn clamp(v: int, lo: int, hi: int) -> int {
    imax(lo, imin(hi, v))
}

fn vertical_is_blocked(x: i32, y_lo: i32, y_hi: i32, rects: &[Rect], src: usize, dst: usize) -> (r: bool)
    ensures r == vertical_blocked(x, y_lo, y_hi, rects@, src, dst),
{
    let mut k: usize = 0;
    while k < rects.len()
        invariant
            k <= rects.len(),
            forall|q: int| 0 <= q < k && q != src && q != dst
                ==> !spec_seg_hits_rect((x, y_lo), (x, y_hi), #[trigger] rects@[q]),
        decreases rects.len() - k,
    {
        if k != src && k != dst && seg_hits_rect((x, y_lo), (x, y_hi), rects[k]) {
            return true;
        }
        k += 1;
    }
    false
}

/// Steps `x` by `direction * MIN_LINE_GAP` (clamped to `[min_x, max_x]`)
/// while the vertical run is blocked, at most `n` times.
pub open spec fn spec_clear_x(x: i32, y_lo: i32, y_hi: i32, rects: Seq<Rect>, src: usize, dst: usize,
    direction: i32, min_x: i32, max_x: i32, n: nat) -> i32
    decreases n,
{
    if n == 0 || !vertical_blocked(x, y_lo, y_hi, rects, src, dst) {
        x
    } else {
        spec_clear_x(clamp(x + direction * MIN_LINE_GAP, min_x as int, max_x as int) as i32, y_lo, y_hi, rects, src, dst,
            direction, min_x, max_x, (n - 1) as nat)
    }
}

/// Finds an x for a vertical run between `y1` and `y2` that crosses no
/// other node, stepping outward in `direction` for at most 80 tries.
pub fn clear_vertical_x(
    x: i32,
    y1: i32,
    y2: i32,
    rects: &[Rect],
    src_id: usize,
    dst_id: usize,
    direction: i32,
    min_x: i32,
    max_x: i32,
) -> (r: i32)
    requires
        coord_ok(x as int), coord_ok(min_x as int), coord_ok(max_x as int),
        -0x1000 <= direction <= 0x1000,
    ensures
        r == spec_clear_x(x, if y1 <= y2 { y1 } else { y2 }, if y1 >= y2 { y1 } else { y2 },
            rects@, src_id, dst_id, direction, min_x, max_x, 80),
{
    let y_lo = min_i32(y1, y2);
    let y_hi = max_i32(y1, y2);
    let mut cx = x;
    let mut t: usize = 0;
    let ghost x0 = x;
    while t < 80
        invariant
            t <= 80,
            x0 == x,
            y_lo == (if y1 <= y2 { y1 } else { y2 }),
            y_hi == (if y1 >= y2 { y1 } else { y2 }),
            coord_ok(cx as int), coord_ok(min_x as int), coord_ok(max_x as int),
            -0x1000 <= direction <= 0x1000,
            spec_clear_x(x0, y_lo, y_hi, rects@, src_id, dst_id, direction, min_x, max_x, 80)
                == spec_clear_x(cx, y_lo, y_hi, rects@, src_id, dst_id, direction, min_x, max_x, (80 - t) as nat),
        decreases 80 - t,
    {
        let blocked = vertical_is_blocked(cx, y_lo, y_hi, rects, src_id, dst_id);
        if !blocked {
            assert(spec_clear_x(cx, y_lo, y_hi, rects@, src_id, dst_id, direction, min_x, max_x, (80 - t) as nat) == cx);
            return cx;
        }
        cx = cx + direction * MIN_LINE_GAP;
        cx = max_i32(min_x, min_i32(max_x, cx));
        t += 1;
    }
    cx
}

/// The path `choose_best_path` returns is, for a nonempty candidate list,
/// the simplification of one of the candidates.
pub proof fn lemma_choose_best_member(cands: Seq<Seq<Pt>>, rects: Seq<Rect>, src: usize, dst: usize, existing: Seq<EdgePath>)
    requires
        cands.len() > 0,
        cands_ok(cands),
        rects.len() <= 0x10_0000,
    ensures
        exists|i: int| 0 <= i < cands.len()
            && spec_choose_best(cands, rects, src, dst, existing) == spec_simplify_path(#[trigger] cands[i]),
{
    lemma_fold_member(cands, rects, src, dst, existing, cands.len() as int);
    let f = best_fold(cands, rects, src, dst, existing, cands.len() as int);
    if f.0 is Some {
        let i = choose|i: int| 0 <= i < cands.len() && f.0 == Some(spec_simplify_path(cands[i]));
        assert(spec_choose_best(cands, rects, src, dst, existing) == spec_simplify_path(cands[i]));
    } else {
        let i = choose|i: int| 0 <= i < cands.len() && f.2 == Some(spec_simplify_path(cands[i]));
        assert(spec_choose_best(cands, rects, src, dst, existing) == spec_simplify_path(cands[i]));
    }
}

proof fn lemma_fold_member(cands: Seq<Seq<Pt>>, rects: Seq<Rect>, src: usize, dst: usize, existing: Seq<EdgePath>, n: int)
    requires
        0 <= n <= cands.len(),
        cands_ok(cands),
        rects.len() <= 0x10_0000,
    ensures
        ({
            let f = best_fold(cands, rects, src, dst, existing, n);
            &&& (f.0 is Some ==> exists|i: int| 0 <= i < n && f.0 == Some(spec_simplify_path(#[trigger] cands[i])))
            &&& (f.2 is Some ==> exists|i: int| 0 <= i < n && f.2 == Some(spec_simplify_path(#[trigger] cands[i])))
            &&& (n > 0 ==> f.2 is Some)
            &&& (f.2 is None ==> f.3 == max_key())
        }),
    decreases n,
{
    if n > 0 {
        lemma_fold_member(cands, rects, src, dst, existing, n - 1);
        let p = spec_simplify_path(cands[n - 1]);
        assert(path_ok(cands[n - 1]) && cands[n - 1].len() <= 0x100);
        lemma_simplify_endpoints(cands[n - 1]);
        lemma_coll_bound(p, rects, src, dst, seg_count(p));
        assert(seg_count(p) * (100_000 + 0x10_0000 * 250_000) <= 0x100 * (100_000 + 0x10_0000 * 250_000)) by (nonlinear_arith)
            requires 0 <= seg_count(p) <= 0x100;
        let f = best_fold(cands, rects, src, dst, existing, n);
        let g = best_fold(cands, rects, src, dst, existing, n - 1);
        if f.0 is Some && f.0 != g.0 {
            assert(f.0 == Some(spec_simplify_path(cands[n - 1])));
        }
        if f.2 is Some && f.2 != g.2 {
            assert(f.2 == Some(spec_simplify_path(cands[n - 1])));
        }
    }
}

/// Passing the block check means having a segment and colliding with no
/// other node; when neither endpoint is a node, the two checks agree.
pub proof fn lemma_blocks_vs_collides(path: Seq<Pt>, rects: Seq<Rect>, src: usize, dst: usize)
    ensures
        spec_respects_blocks(path, rects, src, dst) ==> path.len() >= 2 && !spec_path_collides(path, rects, src, dst),
        src >= rects.len() && dst >= rects.len() ==>
            (spec_respects_blocks(path, rects, src, dst) <==> path.len() >= 2 && !spec_path_collides(path, rects, src, dst)),
{
    if spec_respects_blocks(path, rects, src, dst) {
        assert forall|i: int| 0 <= i < seg_count(path) implies !#[trigger] seg_collides(path, rects, src, dst, i) by {
            assert(seg_respects_blocks(path, rects, src, dst, i));
            assert forall|k: int| 0 <= k < rects.len() && k != src && k != dst implies
                !(spec_seg_hits_rect(path[i], path[i + 1], #[trigger] rects[k]) || spec_seg_too_close(path[i], path[i + 1], rects[k])) by {
                assert(seg_respects_rect(path, rects, src, dst, i, k));
            }
        }
    }
    if src >= rects.len() && dst >= rects.len() && path.len() >= 2 && !spec_path_collides(path, rects, src, dst) {
        assert forall|i: int| 0 <= i < path.len() - 1 implies #[trigger] seg_respects_blocks(path, rects, src, dst, i) by {
            assert(!seg_collides(path, rects, src, dst, i));
            assert forall|k: int| 0 <= k < rects.len() implies #[trigger] seg_respects_rect(path, rects, src, dst, i, k) by {
                if spec_seg_hits_rect(path[i], path[i + 1], rects[k]) || spec_seg_too_close(path[i], path[i + 1], rects[k]) {
                    assert(seg_collides(path, rects, src, dst, i));
                }
            }
        }
    }
}

/// The plain spacing penalty measures the path against the segments of
/// every existing edge.
pub proof fn lemma_spacing_is_all_segments(path: Seq<Pt>, existing: Seq<EdgePath>)
    ensures
        spec_spacing_penalty(path, existing) == ({
            let segs = spec_path_segments(path);
            segs_penalty(segs, existing.map_values(|e: EdgePath| spec_path_segments(e.path@)), segs.len() as int)
        }),
{
    assert(edge_seg_lists(existing, false, 0, None) =~= existing.map_values(|e: EdgePath| spec_path_segments(e.path@)));
}

/// The fixed cost of the diagonal segments among the first `n`.
pub open spec fn diag_cost(segs: Seq<Seg>, n: int) -> int
    decreases n,
{
    if n <= 0 { 0 } else { diag_cost(segs, n - 1) + if segs[n - 1].0 == 'x' { 20_000int } else { 0int } }
}

proof fn lemma_lists_prefix(s1: Seg, a: Seq<Seq<Seg>>, b: Seq<Seq<Seg>>, j: int)
    requires 0 <= j <= a.len(),
    ensures lists_penalty(s1, a + b, j) == lists_penalty(s1, a, j),
    decreases j,
{
    if j > 0 {
        lemma_lists_prefix(s1, a, b, j - 1);
        assert((a + b)[j - 1] == a[j - 1]);
    }
}

proof fn lemma_lists_concat(s1: Seg, a: Seq<Seq<Seg>>, b: Seq<Seq<Seg>>, j: int)
    requires 0 <= j <= b.len(),
    ensures lists_penalty(s1, a + b, a.len() + j) == lists_penalty(s1, a, a.len() as int) + lists_penalty(s1, b, j),
    decreases j,
{
    if j == 0 {
        lemma_lists_prefix(s1, a, b, a.len() as int);
    } else {
        lemma_lists_concat(s1, a, b, j - 1);
        assert((a + b)[a.len() + j - 1] == b[j - 1]);
    }
}

proof fn lemma_lists_nonneg(s1: Seg, ls: Seq<Seq<Seg>>, j: int)
    ensures lists_penalty(s1, ls, j) >= 0,
    decreases j,
{
    if j > 0 {
        lemma_lists_nonneg(s1, ls, j - 1);
        lemma_list_nonneg(s1, ls[j - 1], ls[j - 1].len() as int);
    }
}

proof fn lemma_list_nonneg(s1: Seg, l: Seq<Seg>, k: int)
    ensures list_penalty(s1, l, k) >= 0,
    decreases k,
{
    if k > 0 {
        lemma_list_nonneg(s1, l, k - 1);
        let s2 = l[k - 1];
        if !(s1.0 != s2.0 || s2.0 == 'x') {
            let d = iabs(s1.1 - s2.1);
            assert(d >= 0);
        }
    }
}

/// The spacing penalty splits over the existing segment lists: the
/// diagonal segments' fixed cost is counted once, an empty set of lists
/// costs just that, and any set costs at least that.
pub proof fn lemma_penalty_split(segs: Seq<Seg>, a: Seq<Seq<Seg>>, b: Seq<Seq<Seg>>, n: int)
    requires 0 <= n <= segs.len(),
    ensures
        segs_penalty(segs, a + b, n) == segs_penalty(segs, a, n) + segs_penalty(segs, b, n) - diag_cost(segs, n),
        segs_penalty(segs, Seq::empty(), n) == diag_cost(segs, n),
        segs_penalty(segs, a, n) >= diag_cost(segs, n),
    decreases n,
{
    if n > 0 {
        lemma_penalty_split(segs, a, b, n - 1);
        let s1 = segs[n - 1];
        lemma_lists_concat(s1, a, b, b.len() as int);
        lemma_lists_nonneg(s1, a, a.len() as int);
    }
}

/// Per-edge penalty: edges leaving the same anchor of the same source are
/// left out of the existing lists.
pub open spec fn not_sibling(e: EdgePath, from: usize, start: Option<Pt>) -> bool {
    !(e.from == from && first_pt(e.path@) == start)
}

proof fn lemma_lists_push_empty(s1: Seg, ls: Seq<Seq<Seg>>)
    ensures lists_penalty(s1, ls.push(Seq::empty()), ls.len() + 1int) == lists_penalty(s1, ls, ls.len() as int),
{
    lemma_lists_prefix(s1, ls, seq![Seq::<Seg>::empty()], ls.len() as int);
    assert(ls.push(Seq::empty()) =~= ls + seq![Seq::<Seg>::empty()]);
}

proof fn lemma_lists_push(s1: Seg, ls: Seq<Seq<Seg>>, l: Seq<Seg>)
    ensures lists_penalty(s1, ls.push(l), ls.len() + 1int) == lists_penalty(s1, ls, ls.len() as int) + list_penalty(s1, l, l.len() as int),
{
    lemma_lists_prefix(s1, ls, seq![l], ls.len() as int);
    assert(ls.push(l) =~= ls + seq![l]);
}

proof fn lemma_sibling_lists(s1: Seg, es: Seq<EdgePath>, from: usize, start: Option<Pt>)
    ensures ({
        let kept = es.filter(|e: EdgePath| not_sibling(e, from, start));
        lists_penalty(s1, edge_seg_lists(es, true, from, start), es.len() as int)
            == lists_penalty(s1, edge_seg_lists(kept, false, 0, None), kept.len() as int)
    }),
    decreases es.len(),
{
    reveal_with_fuel(Seq::<_>::filter, 1);
    if es.len() > 0 {
        let t = es.drop_last();
        let e = es.last();
        lemma_sibling_lists(s1, t, from, start);
        let kt = t.filter(|e: EdgePath| not_sibling(e, from, start));
        assert(edge_seg_lists(es, true, from, start) =~= edge_seg_lists(t, true, from, start).push(
            if e.from == from && first_pt(e.path@) == start { Seq::<Seg>::empty() } else { spec_path_segments(e.path@) }));
        assert(es.filter(|e: EdgePath| not_sibling(e, from, start)) == (if not_sibling(e, from, start) { kt.push(e) } else { kt }));
        if not_sibling(e, from, start) {
            assert(edge_seg_lists(kt.push(e), false, 0, None) =~= edge_seg_lists(kt, false, 0, None).push(spec_path_segments(e.path@)));
            lemma_lists_push(s1, edge_seg_lists(t, true, from, start), spec_path_segments(e.path@));
            lemma_lists_push(s1, edge_seg_lists(kt, false, 0, None), spec_path_segments(e.path@));
        } else {
            lemma_lists_push_empty(s1, edge_seg_lists(t, true, from, start));
        }
    } else {
        assert(es.filter(|e: EdgePath| not_sibling(e, from, start)) =~= es);
    }
}

proof fn lemma_segs_same(segs: Seq<Seg>, a: Seq<Seq<Seg>>, b: Seq<Seq<Seg>>, n: int)
    requires 0 <= n <= segs.len(),
        forall|i: int| 0 <= i < n ==> lists_penalty(#[trigger] segs[i], a, a.len() as int) == lists_penalty(segs[i], b, b.len() as int),
    ensures segs_penalty(segs, a, n) == segs_penalty(segs, b, n),
    decreases n,
{
    if n > 0 {
        lemma_segs_same(segs, a, b, n - 1);
        assert(lists_penalty(segs[n - 1], a, a.len() as int) == lists_penalty(segs[n - 1], b, b.len() as int));
    }
}

/// The per-edge spacing penalty is the plain penalty against the existing
/// edges that are not siblings leaving the same anchor of the same source.
pub proof fn lemma_for_edge_is_filtered(path: Seq<Pt>, existing: Seq<EdgePath>, from_id: usize)
    ensures
        spec_spacing_penalty_for_edge(path, existing, from_id)
            == spec_spacing_penalty(path, existing.filter(|e: EdgePath| not_sibling(e, from_id, first_pt(path)))),
{
    let segs = spec_path_segments(path);
    let start = first_pt(path);
    let kept = existing.filter(|e: EdgePath| not_sibling(e, from_id, start));
    let a = edge_seg_lists(existing, true, from_id, start);
    let b = edge_seg_lists(kept, false, 0, None);
    assert forall|i: int| 0 <= i < segs.len() implies lists_penalty(#[trigger] segs[i], a, a.len() as int) == lists_penalty(segs[i], b, b.len() as int) by {
        lemma_sibling_lists(segs[i], existing, from_id, start);
    }
    lemma_segs_same(segs, a, b, segs.len() as int);
}

proof fn lemma_fold_valid(cands: Seq<Seq<Pt>>, rects: Seq<Rect>, src: usize, dst: usize, existing: Seq<EdgePath>, n: int)
    requires
        0 <= n <= cands.len(),
        cands_ok(cands),
        rects.len() <= 0x10_0000,
    ensures
        ({
            let f = best_fold(cands, rects, src, dst, existing, n);
            &&& (f.0 is None ==> f.1 == max_key())
            &&& (f.0 is Some ==> cand_valid(f.0->0, rects, src, dst, existing))
            &&& ((exists|i: int| 0 <= i < n && #[trigger] cand_valid(spec_simplify_path(cands[i]), rects, src, dst, existing))
                ==> f.0 is Some)
        }),
    decreases n,
{
    if n > 0 {
        lemma_fold_valid(cands, rects, src, dst, existing, n - 1);
        let p = spec_simplify_path(cands[n - 1]);
        assert(path_ok(cands[n - 1]) && cands[n - 1].len() <= 0x100);
        lemma_simplify_endpoints(cands[n - 1]);
        lemma_coll_bound(p, rects, src, dst, seg_count(p));
        assert(seg_count(p) * (100_000 + 0x10_0000 * 250_000) <= 0x100 * (100_000 + 0x10_0000 * 250_000)) by (nonlinear_arith)
            requires 0 <= seg_count(p) <= 0x100;
        let k = cand_key(p, rects, src, dst, existing);
        assert(k.0 < i64::MAX);
        assert(key_lt(k, max_key()));
        let g = best_fold(cands, rects, src, dst, existing, n - 1);
        if exists|i: int| 0 <= i < n && #[trigger] cand_valid(spec_simplify_path(cands[i]), rects, src, dst, existing) {
            let i = choose|i: int| 0 <= i < n && #[trigger] cand_valid(spec_simplify_path(cands[i]), rects, src, dst, existing);
            if i < n - 1 {
                assert(g.0 is Some);
            }
        }
    }
}

/// The best path is an acceptable one (within the block and parallel
/// constraints) whenever some candidate is acceptable after simplifying.
pub proof fn lemma_choose_valid(cands: Seq<Seq<Pt>>, rects: Seq<Rect>, src: usize, dst: usize, existing: Seq<EdgePath>)
    requires
        cands_ok(cands),
        rects.len() <= 0x10_0000,
        exists|i: int| 0 <= i < cands.len() && #[trigger] cand_valid(spec_simplify_path(cands[i]), rects, src, dst, existing),
    ensures cand_valid(spec_choose_best(cands, rects, src, dst, existing), rects, src, dst, existing),
{
    lemma_fold_valid(cands, rects, src, dst, existing, cands.len() as int);
}

} // verus!
