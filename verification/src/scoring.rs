//! Conflict scores of routed edges and the grouping of edges by the input
//! port they enter, used to decide which edges to re-route.
use vstd::prelude::*;
use crate::geometry::{
    Pt, Rect, Seg, iabs, imin, imax, path_ok, pt_ok, rects_ok, coord_ok, spec_seg_hits_rect,
    spec_seg_too_close, seg_hits_rect, seg_too_close_to_rect, min_i32, max_i32, abs_i32, pt_eq,
    MIN_CLOSE_VIOLATION,
};
use crate::path::{EdgePath, spec_path_segments, path_segments, seg_count};
use crate::routing::{
    non_orth, spec_loop_siblings, is_loop_next_done_siblings, segs_ok, edges_ok, total_pts,
    lemma_path_segs_ok,
};

verus! {

/// The first point of a path, or the origin for an empty path.
pub open spec fn anchor(p: Seq<Pt>) -> Pt {
    if p.len() > 0 { p[0] } else { (0, 0) }
}

/// Conflict of one segment with one node: 3000 if it crosses the node,
/// 350 if it only runs too close to it.
pub open spec fn rect_conflict(a: Pt, b: Pt, r: Rect) -> int {
    if spec_seg_hits_rect(a, b, r) { 3000 } else if spec_seg_too_close(a, b, r) { 350 } else { 0 }
}

/// Conflict of segment `a`-`b` with the first `k` nodes, the edge's own
/// endpoints `from` and `to` excepted.
pub open spec fn rects_conflict(a: Pt, b: Pt, rects: Seq<Rect>, from: usize, to: usize, k: int) -> int
    decreases k,
{
    if k <= 0 {
        0
    } else {
        rects_conflict(a, b, rects, from, to, k - 1)
            + if k - 1 == from as int || k - 1 == to as int { 0 } else { rect_conflict(a, b, rects[k - 1]) }
    }
}

/// Node conflict of segment `k` of `p`: 2000 if it is diagonal, plus its
/// conflicts with every other node.
pub open spec fn seg_node_conflict(p: Seq<Pt>, rects: Seq<Rect>, from: usize, to: usize, k: int) -> int {
    (if non_orth(p[k], p[k + 1]) { 2000int } else { 0int })
        + rects_conflict(p[k], p[k + 1], rects, from, to, rects.len() as int)
}

pub open spec fn node_conflict(p: Seq<Pt>, rects: Seq<Rect>, from: usize, to: usize, n: int) -> int
    decreases n,
{
    if n <= 0 { 0 } else { node_conflict(p, rects, from, to, n - 1) + seg_node_conflict(p, rects, from, to, n - 1) }
}

pub open spec fn overlap_of(s1: Seg, s2: Seg) -> int {
    imin(s1.3 as int, s2.3 as int) - imax(s1.2 as int, s2.2 as int)
}

/// Conflict between a segment of the scored edge and a segment of another
/// edge running the same way with overlapping spans: on the same line it
/// costs 2600 plus 6 per overlapping pixel (600 more between a loop's back
/// and exit edges), unless both edges leave the same anchor of the same
/// source; closer than `MIN_CLOSE_VIOLATION` it costs 260 plus the overlap.
pub open spec fn seg_pair_conflict(s1: Seg, s2: Seg, allow_same_output: bool, siblings: bool) -> int {
    if s1.0 == 'x' || s2.0 == 'x' || s1.0 != s2.0 {
        0
    } else {
        let ov = overlap_of(s1, s2);
        if ov <= 0 {
            0
        } else if s1.1 == s2.1 {
            if allow_same_output { 0 } else { 2600 + 6 * ov + if siblings { 600int } else { 0int } }
        } else if iabs(s1.1 - s2.1) < MIN_CLOSE_VIOLATION {
            260 + ov
        } else {
            0
        }
    }
}

pub open spec fn seg_list_conflict(s1: Seg, l: Seq<Seg>, allow: bool, sib: bool, k: int) -> int
    decreases k,
{
    if k <= 0 { 0 } else { seg_list_conflict(s1, l, allow, sib, k - 1) + seg_pair_conflict(s1, l[k - 1], allow, sib) }
}

pub open spec fn lists_conflict(my: Seq<Seg>, oth: Seq<Seg>, allow: bool, sib: bool, n: int) -> int
    decreases n,
{
    if n <= 0 { 0 } else { lists_conflict(my, oth, allow, sib, n - 1) + seg_list_conflict(my[n - 1], oth, allow, sib, oth.len() as int) }
}

/// Conflict of edge `e` with another edge `o`, summed over all pairs of
/// their segments.
pub open spec fn edge_pair_conflict(e: EdgePath, o: EdgePath) -> int {
    let my = spec_path_segments(e.path@);
    let oth = spec_path_segments(o.path@);
    lists_conflict(my, oth, e.from == o.from && anchor(e.path@) == anchor(o.path@), spec_loop_siblings(e, o), my.len() as int)
}

pub open spec fn edges_conflict(es: Seq<EdgePath>, i: int, j: int) -> int
    decreases j,
{
    if j <= 0 { 0 } else { edges_conflict(es, i, j - 1) + if j - 1 == i { 0 } else { edge_pair_conflict(es[i], es[j - 1]) } }
}

/// The conflict score of edge `i`: its conflicts with the nodes plus its
/// conflicts with every other edge.
pub open spec fn spec_edge_conflict_score(i: int, es: Seq<EdgePath>, rects: Seq<Rect>) -> int {
    let e = es[i];
    node_conflict(e.path@, rects, e.from, e.to, seg_count(e.path@)) + edges_conflict(es, i, es.len() as int)
}

/// Sizes for which a conflict score fits in `i64`: at most 2^16 path
/// points against at most 2^20 nodes (each segment costs at most 2000 plus
/// 3000 per node) and at most 2^32 segment pairs of at most `pair_cap`.
pub open spec fn score_sizes_ok(es: Seq<EdgePath>, rects: Seq<Rect>) -> bool {
    edges_ok(es) && rects_ok(rects) && rects.len() <= 0x10_0000 && total_pts(es, es.len() as int) <= 0x1_0000
}

pub open spec fn pair_cap() -> int { 0x100_0000int }

fn rects_conflict_exec(a: Pt, b: Pt, rects: &[Rect], from: usize, to: usize) -> (r: i64)
    requires pt_ok(a), pt_ok(b), rects_ok(rects@), rects@.len() <= 0x10_0000,
    ensures r == rects_conflict(a, b, rects@, from, to, rects@.len() as int), 0 <= r <= 3000 * rects@.len(),
{
    let mut acc: i64 = 0;
    let mut k: usize = 0;
    while k < rects.len()
        invariant
            k <= rects.len(), rects@.len() <= 0x10_0000, pt_ok(a), pt_ok(b), rects_ok(rects@),
            acc == rects_conflict(a, b, rects@, from, to, k as int),
            0 <= acc <= 3000 * k,
        decreases rects.len() - k,
    {
        if k != from && k != to {
            if seg_hits_rect(a, b, rects[k]) {
                acc += 3000;
            } else if seg_too_close_to_rect(a, b, rects[k]) {
                acc += 350;
            }
        }
        k += 1;
    }
    acc
}

proof fn lemma_pair_conflict_bound(s1: Seg, s2: Seg, allow: bool, sib: bool)
    requires
        coord_ok(s1.1 as int), coord_ok(s1.2 as int), coord_ok(s1.3 as int),
        coord_ok(s2.1 as int), coord_ok(s2.2 as int), coord_ok(s2.3 as int),
    ensures 0 <= seg_pair_conflict(s1, s2, allow, sib) <= pair_cap(),
{
}

fn seg_list_conflict_exec(s1: Seg, oth: &[Seg], allow: bool, sib: bool) -> (r: i64)
    requires
        coord_ok(s1.1 as int), coord_ok(s1.2 as int), coord_ok(s1.3 as int),
        segs_ok(oth@), oth@.len() <= 0x1_0000,
    ensures
        r == seg_list_conflict(s1, oth@, allow, sib, oth@.len() as int),
        0 <= r <= oth@.len() * pair_cap(),
{
    let mut acc: i64 = 0;
    let mut k: usize = 0;
    while k < oth.len()
        invariant
            k <= oth.len(), oth@.len() <= 0x1_0000, segs_ok(oth@),
            coord_ok(s1.1 as int), coord_ok(s1.2 as int), coord_ok(s1.3 as int),
            acc == seg_list_conflict(s1, oth@, allow, sib, k as int),
            0 <= acc <= k * pair_cap(),
        decreases oth.len() - k,
    {
        let s2 = oth[k];
        proof {
            assert(coord_ok(s2.1 as int) && coord_ok(s2.2 as int) && coord_ok(s2.3 as int));
            lemma_pair_conflict_bound(s1, s2, allow, sib);
        }
        if !(s1.0 == 'x' || s2.0 == 'x' || s1.0 != s2.0) {
            let overlap = min_i32(s1.3, s2.3) - max_i32(s1.2, s2.2);
            if overlap > 0 {
                if s1.1 == s2.1 {
                    if !allow {
                        acc += 2600 + overlap as i64 * 6;
                        if sib {
                            acc += 600;
                        }
                    }
                } else if abs_i32(s1.1 - s2.1) < MIN_CLOSE_VIOLATION {
                    acc += 260 + overlap as i64;
                }
            }
        }
        k += 1;
    }
    acc
}

fn lists_conflict_exec(my: &[Seg], oth: &[Seg], allow: bool, sib: bool) -> (r: i64)
    requires
        segs_ok(my@), segs_ok(oth@), my@.len() <= 0x1_0000, oth@.len() <= 0x1_0000,
    ensures
        r == lists_conflict(my@, oth@, allow, sib, my@.len() as int),
        0 <= r <= my@.len() * oth@.len() * pair_cap(),
{
    let mut acc: i64 = 0;
    let mut k: usize = 0;
    let ghost l = oth@.len() as int;
    while k < my.len()
        invariant
            k <= my.len(), my@.len() <= 0x1_0000, oth@.len() <= 0x1_0000, segs_ok(my@), segs_ok(oth@),
            l == oth@.len(),
            acc == lists_conflict(my@, oth@, allow, sib, k as int),
            0 <= acc <= k * l * pair_cap(),
        decreases my.len() - k,
    {
        let s1 = my[k];
        assert(coord_ok(s1.1 as int) && coord_ok(s1.2 as int) && coord_ok(s1.3 as int));
        let x = seg_list_conflict_exec(s1, oth, allow, sib);
        proof {
            assert((k + 1) * l * pair_cap() == k * l * pair_cap() + l * pair_cap()) by (nonlinear_arith);
            assert(k * l * pair_cap() <= 0x1_0000 * 0x1_0000 * pair_cap()) by (nonlinear_arith)
                requires 0 <= k <= 0x1_0000, 0 <= l <= 0x1_0000;
        }
        acc += x;
        k += 1;
    }
    proof {
        assert(k * l * pair_cap() == my@.len() * oth@.len() * pair_cap());
    }
    acc
}

proof fn lemma_total_pts_mono(es: Seq<EdgePath>, a: int, b: int)
    requires 0 <= a <= b <= es.len(),
    ensures 0 <= total_pts(es, a) <= total_pts(es, b),
    decreases b - a,
{
    lemma_total_pts_nonneg(es, a);
    if a < b {
        lemma_total_pts_mono(es, a, b - 1);
    }
}

proof fn lemma_total_pts_nonneg(es: Seq<EdgePath>, a: int)
    ensures 0 <= total_pts(es, a),
    decreases a,
{
    if a > 0 {
        lemma_total_pts_nonneg(es, a - 1);
    }
}

proof fn lemma_path_len_le_total(es: Seq<EdgePath>, i: int)
    requires 0 <= i < es.len(),
    ensures es[i].path@.len() <= total_pts(es, es.len() as int),
{
    lemma_total_pts_mono(es, i + 1, es.len() as int);
    lemma_total_pts_mono(es, 0, i);
}

/// The conflict score of edge `i` against the nodes and the other edges:
/// each diagonal segment costs 2000; each segment crossing another node
/// 3000, or running too close to it 350; and each overlap with a segment of
/// another edge as `seg_pair_conflict` says.
pub fn edge_conflict_score(i: usize, edge_paths: &[EdgePath], rects: &[Rect]) -> (score: i64)
    requires
        i < edge_paths@.len(),
        score_sizes_ok(edge_paths@, rects@),
    ensures
        score == spec_edge_conflict_score(i as int, edge_paths@, rects@),
{
    let e = &edge_paths[i];
    let path = &e.path;
    let ghost es = edge_paths@;
    let ghost t = total_pts(es, es.len() as int);
    proof {
        lemma_path_len_le_total(es, i as int);
        assert(path_ok(path@));
    }
    let n = if path.len() == 0 { 0 } else { path.len() - 1 };
    let mut score: i64 = 0;
    let mut k: usize = 0;
    while k < n
        invariant
            n == seg_count(path@), k <= n, n <= 0x1_0000, i < edge_paths@.len(),
            path_ok(path@), rects_ok(rects@), rects@.len() <= 0x10_0000,
            *e == edge_paths@[i as int], path@ == e.path@,
            score == node_conflict(path@, rects@, e.from, e.to, k as int),
            0 <= score <= k * 3_145_730_000,
        decreases n - k,
    {
        let a = path[k];
        let b = path[k + 1];
        let r = rects_conflict_exec(a, b, rects, e.from, e.to);
        if a.0 != b.0 && a.1 != b.1 {
            score += 2000;
        }
        score += r;
        k += 1;
    }
    let ghost node_part = score as int;
    let my = path_segments(path);
    proof { lemma_path_segs_ok(path@); }
    let e_anchor = if path.len() > 0 { path[0] } else { (0, 0) };
    let ghost nm = my@.len() as int;
    let mut j: usize = 0;
    while j < edge_paths.len()
        invariant
            j <= edge_paths.len(), i < edge_paths.len(),
            es == edge_paths@, *e == es[i as int], path@ == e.path@,
            edges_ok(es), t == total_pts(es, es.len() as int), t <= 0x1_0000,
            my@ == spec_path_segments(path@), segs_ok(my@), nm == my@.len(), nm <= 0x1_0000,
            e_anchor == anchor(path@),
            0 <= node_part <= 0x1_0000 * 3_145_730_000,
            score == node_part + edges_conflict(es, i as int, j as int),
            0 <= score - node_part <= nm * total_pts(es, j as int) * pair_cap(),
        decreases edge_paths.len() - j,
    {
        proof {
            lemma_total_pts_mono(es, j + 1, es.len() as int);
            assert(nm * total_pts(es, j + 1) * pair_cap() <= 0x1_0000 * 0x1_0000 * pair_cap()) by (nonlinear_arith)
                requires 0 <= nm <= 0x1_0000, 0 <= total_pts(es, j + 1) <= 0x1_0000;
        }
        if j != i {
            let o = &edge_paths[j];
            assert(path_ok(o.path@));
            let o_anchor = if o.path.len() > 0 { o.path[0] } else { (0, 0) };
            let allow = e.from == o.from && pt_eq(e_anchor, o_anchor);
            let sib = is_loop_next_done_siblings(e, o);
            let oth = path_segments(&o.path);
            proof {
                lemma_path_segs_ok(o.path@);
                lemma_path_len_le_total(es, j as int);
            }
            let x = lists_conflict_exec(&my, &oth, allow, sib);
            proof {
                let pj = es[j as int].path@.len() as int;
                assert(oth@.len() <= pj);
                assert(nm * oth@.len() * pair_cap() <= nm * pj * pair_cap()) by (nonlinear_arith)
                    requires 0 <= nm, oth@.len() <= pj;
                assert(nm * total_pts(es, j + 1) * pair_cap() == nm * total_pts(es, j as int) * pair_cap() + nm * pj * pair_cap())
                    by (nonlinear_arith) requires total_pts(es, j + 1) == total_pts(es, j as int) + pj;
            }
            score += x;
        } else {
            proof {
                assert(nm * total_pts(es, j as int) * pair_cap() <= nm * total_pts(es, j + 1) * pair_cap()) by (nonlinear_arith)
                    requires 0 <= nm, total_pts(es, j as int) <= total_pts(es, j + 1);
            }
        }
        j += 1;
    }
    score
}

/// The input port an edge enters: its target node and the last point of
/// its path.
pub open spec fn port_key(e: EdgePath) -> (usize, Pt) {
    (e.to, e.path@.last())
}

/// Index of the group with key `key` among the first `m` groups, or -1.
pub open spec fn group_index(u: Seq<((usize, Pt), Seq<usize>)>, key: (usize, Pt), m: int) -> int
    decreases m,
{
    if m <= 0 { -1 } else if u[m - 1].0 == key { m - 1 } else { group_index(u, key, m - 1) }
}

/// The edges among the first `n` grouped by the input port they enter:
/// groups in the order their port first occurs, each listing its edges in
/// increasing order; edges with an empty path are left out.
pub open spec fn spec_port_usage(es: Seq<EdgePath>, n: int) -> Seq<((usize, Pt), Seq<usize>)>
    decreases n,
{
    if n <= 0 {
        Seq::empty()
    } else {
        let u = spec_port_usage(es, n - 1);
        if es[n - 1].path@.len() == 0 {
            u
        } else {
            let key = port_key(es[n - 1]);
            let gi = group_index(u, key, u.len() as int);
            if gi >= 0 {
                u.update(gi, (key, u[gi].1.push((n - 1) as usize)))
            } else {
                u.push((key, seq![(n - 1) as usize]))
            }
        }
    }
}

pub open spec fn usage_view(v: Seq<((usize, Pt), Vec<usize>)>) -> Seq<((usize, Pt), Seq<usize>)> {
    v.map_values(|g: ((usize, Pt), Vec<usize>)| (g.0, g.1@))
}

proof fn lemma_group_index(u: Seq<((usize, Pt), Seq<usize>)>, key: (usize, Pt), m: int)
    requires 0 <= m <= u.len(),
    ensures
        -1 <= group_index(u, key, m) < m,
        group_index(u, key, m) >= 0 ==> u[group_index(u, key, m)].0 == key,
        group_index(u, key, m) < 0 ==> forall|g: int| 0 <= g < m ==> u[g].0 != key,
    decreases m,
{
    if m > 0 {
        lemma_group_index(u, key, m - 1);
    }
}

/// Groups the edges by the input port they enter (`spec_port_usage`).
pub fn input_port_usage(edge_paths: &[EdgePath]) -> (usage: Vec<((usize, Pt), Vec<usize>)>)
    requires edge_paths@.len() <= usize::MAX,
    ensures
        usage_view(usage@) == spec_port_usage(edge_paths@, edge_paths@.len() as int),
{
    let ghost es = edge_paths@;
    let mut usage: Vec<((usize, Pt), Vec<usize>)> = Vec::new();
    let mut i: usize = 0;
    while i < edge_paths.len()
        invariant
            i <= edge_paths.len(), es == edge_paths@,
            usage_view(usage@) == spec_port_usage(es, i as int),
        decreases edge_paths.len() - i,
    {
        let e = &edge_paths[i];
        let ghost u = usage_view(usage@);
        if e.path.len() > 0 {
            let key = (e.to, e.path[e.path.len() - 1]);
            assert(key == port_key(es[i as int]));
            let mut g: usize = usage.len();
            let mut k: usize = 0;
            while k < usage.len()
                invariant
                    k <= usage.len(), u == usage_view(usage@),
                    g == usage.len() || (g < usage.len() && usage@[g as int].0 == key),
                    g == usage.len() ==> group_index(u, key, k as int) < 0,
                    g < usage.len() ==> g == group_index(u, key, k as int),
                decreases usage.len() - k,
            {
                let kk = &usage[k].0;
                if kk.0 == key.0 && pt_eq(kk.1, key.1) {
                    g = k;
                }
                k += 1;
            }
            proof { lemma_group_index(u, key, u.len() as int); }
            if g < usage.len() {
                usage[g].1.push(i);
                assert(usage_view(usage@) =~= u.update(g as int, (key, u[g as int].1.push(i))));
            } else {
                let mut one: Vec<usize> = Vec::new();
                one.push(i);
                assert(one@ =~= seq![i]);
                usage.push((key, one));
                assert(usage_view(usage@) =~= u.push((key, seq![i])));
            }
        }
        i += 1;
    }
    usage
}

/// Input-port groups partition the edges with a nonempty path: the ports
/// are distinct, every such edge has a group, and a group holds exactly the
/// edges that enter its port, in increasing order.
pub proof fn lemma_port_usage_groups(es: Seq<EdgePath>, n: int)
    requires 0 <= n <= es.len(), es.len() <= usize::MAX,
    ensures ({
        let u = spec_port_usage(es, n);
        &&& forall|a: int, b: int| 0 <= a < b < u.len() ==> u[a].0 != u[b].0
        &&& forall|g: int, x: usize| 0 <= g < u.len() ==>
            (#[trigger] u[g].1.contains(x) <==> (x < n && es[x as int].path@.len() > 0 && port_key(es[x as int]) == u[g].0))
        &&& forall|x: int| 0 <= x < n && es[x].path@.len() > 0 ==>
            exists|g: int| 0 <= g < u.len() && u[g].0 == #[trigger] port_key(es[x])
        &&& forall|g: int, a: int, b: int| 0 <= g < u.len() && 0 <= a < b < u[g].1.len() ==> u[g].1[a] < u[g].1[b]
        &&& forall|g: int, a: int| 0 <= g < u.len() && 0 <= a < u[g].1.len() ==> u[g].1[a] < n
    }),
    decreases n,
{
    if n > 0 {
        lemma_port_usage_groups(es, n - 1);
        let u = spec_port_usage(es, n - 1);
        let x0 = (n - 1) as usize;
        let v = spec_port_usage(es, n);
        if es[n - 1].path@.len() == 0 {
            assert(v == u);
            assert forall|g: int, x: usize| 0 <= g < v.len() implies
                (#[trigger] v[g].1.contains(x) <==> (x < n && es[x as int].path@.len() > 0 && port_key(es[x as int]) == v[g].0)) by {
                if x == x0 && u[g].1.contains(x) {
                    let w = choose|w: int| 0 <= w < u[g].1.len() && u[g].1[w] == x;
                    assert(u[g].1[w] < n - 1);
                }
            }
        }
        if es[n - 1].path@.len() > 0 {
            let key = port_key(es[n - 1]);
            lemma_group_index(u, key, u.len() as int);
            let gi = group_index(u, key, u.len() as int);
            if gi >= 0 {
                assert(v == u.update(gi, (key, u[gi].1.push(x0))));
                assert forall|a: int, b: int| 0 <= a < b < v.len() implies v[a].0 != v[b].0 by {
                    assert(v[a].0 == u[a].0 && v[b].0 == u[b].0);
                }
                assert forall|g: int, a: int| 0 <= g < v.len() && 0 <= a < v[g].1.len() implies v[g].1[a] < n by {
                    if g == gi && a < u[g].1.len() { assert(v[g].1[a] == u[g].1[a]); }
                }
                assert forall|g: int, x: usize| 0 <= g < v.len() implies
                    (#[trigger] v[g].1.contains(x) <==> (x < n && es[x as int].path@.len() > 0 && port_key(es[x as int]) == v[g].0)) by {
                    if g == gi {
                        assert(v[g].1 == u[g].1.push(x0));
                        if x == x0 {
                            assert(v[g].1[u[g].1.len() as int] == x0);
                        } else if u[g].1.contains(x) {
                            let w = choose|w: int| 0 <= w < u[g].1.len() && u[g].1[w] == x;
                            assert(v[g].1[w] == x);
                        } else if v[g].1.contains(x) {
                            let w = choose|w: int| 0 <= w < v[g].1.len() && v[g].1[w] == x;
                            if w < u[g].1.len() { assert(u[g].1[w] == x); }
                        }
                    } else {
                        assert(v[g] == u[g]);
                        if x == x0 {
                            if u[g].1.contains(x) {
                                let w = choose|w: int| 0 <= w < u[g].1.len() && u[g].1[w] == x;
                                assert(u[g].1[w] < n - 1);
                            }
                        }
                    }
                }
                assert forall|x: int| 0 <= x < n && es[x].path@.len() > 0 implies
                    exists|g: int| 0 <= g < v.len() && v[g].0 == #[trigger] port_key(es[x]) by {
                    if x == n - 1 {
                        assert(v[gi].0 == key);
                    } else {
                        let g = choose|g: int| 0 <= g < u.len() && u[g].0 == port_key(es[x]);
                        assert(v[g].0 == u[g].0);
                    }
                }
                assert forall|g: int, a: int, b: int| 0 <= g < v.len() && 0 <= a < b < v[g].1.len() implies v[g].1[a] < v[g].1[b] by {
                    if g == gi {
                        assert(v[g].1 == u[g].1.push(x0));
                        assert(v[g].1[a] == u[g].1[a]);
                        if b == u[g].1.len() {
                            assert(u[g].1[a] < n - 1);
                            assert(v[g].1[b] == x0);
                        } else {
                            assert(v[g].1[b] == u[g].1[b]);
                        }
                    } else {
                        assert(v[g] == u[g]);
                    }
                }
            } else {
                assert(v == u.push((key, seq![x0])));
                assert forall|a: int, b: int| 0 <= a < b < v.len() implies v[a].0 != v[b].0 by {
                    if b == u.len() { assert(v[a].0 == u[a].0); }
                }
                assert forall|g: int, a: int, b: int| 0 <= g < v.len() && 0 <= a < b < v[g].1.len() implies v[g].1[a] < v[g].1[b] by {
                    assert(g < u.len());
                }
                assert forall|g: int, a: int| 0 <= g < v.len() && 0 <= a < v[g].1.len() implies v[g].1[a] < n by {
                    if g == u.len() { assert(v[g].1[a] == x0); }
                }
                assert forall|g: int, x: usize| 0 <= g < v.len() implies
                    (#[trigger] v[g].1.contains(x) <==> (x < n && es[x as int].path@.len() > 0 && port_key(es[x as int]) == v[g].0)) by {
                    if g == u.len() {
                        assert(v[g].1 == seq![x0]);
                        if x == x0 { assert(v[g].1[0] == x0); }
                        if x < n - 1 && es[x as int].path@.len() > 0 && port_key(es[x as int]) == key {
                            let g2 = choose|g2: int| 0 <= g2 < u.len() && u[g2].0 == port_key(es[x as int]);
                            assert(false);
                        }
                    } else {
                        assert(v[g] == u[g]);
                        if x == x0 && u[g].1.contains(x) {
                            let w = choose|w: int| 0 <= w < u[g].1.len() && u[g].1[w] == x;
                            assert(u[g].1[w] < n - 1);
                        }
                    }
                }
                assert forall|x: int| 0 <= x < n && es[x].path@.len() > 0 implies
                    exists|g: int| 0 <= g < v.len() && v[g].0 == #[trigger] port_key(es[x]) by {
                    if x == n - 1 {
                        assert(v[u.len() as int].0 == key);
                    } else {
                        let g = choose|g: int| 0 <= g < u.len() && u[g].0 == port_key(es[x]);
                        assert(v[g].0 == u[g].0);
                    }
                }
            }
        }
    }
}

proof fn lemma_seg_list_nonneg(s1: Seg, l: Seq<Seg>, allow: bool, sib: bool, k: int)
    ensures seg_list_conflict(s1, l, allow, sib, k) >= 0,
    decreases k,
{
    if k > 0 {
        lemma_seg_list_nonneg(s1, l, allow, sib, k - 1);
    }
}

proof fn lemma_lists_conflict_nonneg(my: Seq<Seg>, oth: Seq<Seg>, allow: bool, sib: bool, n: int)
    ensures lists_conflict(my, oth, allow, sib, n) >= 0,
    decreases n,
{
    if n > 0 {
        lemma_lists_conflict_nonneg(my, oth, allow, sib, n - 1);
        lemma_seg_list_nonneg(my[n - 1], oth, allow, sib, oth.len() as int);
    }
}

proof fn lemma_edge_pair_nonneg(e: EdgePath, o: EdgePath)
    ensures edge_pair_conflict(e, o) >= 0,
{
    let my = spec_path_segments(e.path@);
    lemma_lists_conflict_nonneg(my, spec_path_segments(o.path@), e.from == o.from && anchor(e.path@) == anchor(o.path@),
        spec_loop_siblings(e, o), my.len() as int);
}

proof fn lemma_edges_conflict_mono(es: Seq<EdgePath>, i: int, a: int, b: int)
    requires 0 <= a <= b,
    ensures 0 <= edges_conflict(es, i, a) <= edges_conflict(es, i, b),
    decreases b,
{
    if b > 0 {
        if b - 1 != i { lemma_edge_pair_nonneg(es[i], es[b - 1]); }
        if a == b {
            lemma_edges_conflict_mono(es, i, a - 1, b - 1);
        } else {
            lemma_edges_conflict_mono(es, i, a, b - 1);
        }
    }
}

proof fn lemma_edges_conflict_ext(es: Seq<EdgePath>, extra: Seq<EdgePath>, i: int, j: int)
    requires 0 <= i < es.len(), 0 <= j <= es.len(),
    ensures edges_conflict(es + extra, i, j) == edges_conflict(es, i, j),
    decreases j,
{
    if j > 0 {
        lemma_edges_conflict_ext(es, extra, i, j - 1);
        assert((es + extra)[j - 1] == es[j - 1]);
        assert((es + extra)[i] == es[i]);
    }
}

proof fn lemma_rects_conflict_mono(a: Pt, b: Pt, rs: Seq<Rect>, rs2: Seq<Rect>, from: usize, to: usize, k: int)
    requires 0 <= k <= rs.len() <= rs2.len(), rs2.take(rs.len() as int) == rs,
    ensures
        rects_conflict(a, b, rs2, from, to, k) == rects_conflict(a, b, rs, from, to, k),
        rects_conflict(a, b, rs2, from, to, k) <= rects_conflict(a, b, rs2, from, to, rs2.len() as int),
        rects_conflict(a, b, rs, from, to, k) >= 0,
    decreases k,
{
    if k > 0 {
        lemma_rects_conflict_mono(a, b, rs, rs2, from, to, k - 1);
        assert(rs2[k - 1] == rs2.take(rs.len() as int)[k - 1]);
    }
    lemma_rects_upper(a, b, rs2, from, to, k, rs2.len() as int);
}

proof fn lemma_rects_upper(a: Pt, b: Pt, rs: Seq<Rect>, from: usize, to: usize, k: int, m: int)
    requires 0 <= k <= m,
    ensures rects_conflict(a, b, rs, from, to, k) <= rects_conflict(a, b, rs, from, to, m),
    decreases m,
{
    if m > k {
        lemma_rects_upper(a, b, rs, from, to, k, m - 1);
    }
}

proof fn lemma_node_conflict_mono(p: Seq<Pt>, rs: Seq<Rect>, rs2: Seq<Rect>, from: usize, to: usize, n: int)
    requires rs.len() <= rs2.len(), rs2.take(rs.len() as int) == rs,
    ensures 0 <= node_conflict(p, rs, from, to, n) <= node_conflict(p, rs2, from, to, n),
    decreases n,
{
    if n > 0 {
        lemma_node_conflict_mono(p, rs, rs2, from, to, n - 1);
        lemma_rects_conflict_mono(p[n - 1], p[n], rs, rs2, from, to, rs.len() as int);
    }
}

/// The conflict score of an edge is never negative, and it can only grow
/// when edges are added after the others or nodes after the others.
pub proof fn lemma_score_monotone(i: int, es: Seq<EdgePath>, extra: Seq<EdgePath>, rects: Seq<Rect>, rects2: Seq<Rect>)
    requires
        0 <= i < es.len(),
        rects.len() <= rects2.len(), rects2.take(rects.len() as int) == rects,
    ensures
        spec_edge_conflict_score(i, es, rects) >= 0,
        spec_edge_conflict_score(i, es + extra, rects) >= spec_edge_conflict_score(i, es, rects),
        spec_edge_conflict_score(i, es, rects2) >= spec_edge_conflict_score(i, es, rects),
{
    let e = es[i];
    assert((es + extra)[i] == e);
    lemma_node_conflict_mono(e.path@, rects, rects2, e.from, e.to, seg_count(e.path@));
    lemma_edges_conflict_mono(es, i, 0, es.len() as int);
    lemma_edges_conflict_ext(es, extra, i, es.len() as int);
    lemma_edges_conflict_mono(es + extra, i, es.len() as int, (es + extra).len() as int);
}

} // verus!
