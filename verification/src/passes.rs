//! Routing all edges: a first pass that tries every pair of candidate
//! ports for each edge in turn, then passes that re-route edges whose
//! conflicts can be reduced.
use vstd::prelude::*;
use crate::geometry::{
    Pt, Rect, Side, tdiv, iabs, coord_ok, pt_ok, path_ok, rects_ok, spec_port_side, port_side_from_point,
    spec_incoming_dir_valid, incoming_dir_valid,
};
use crate::scoring::{
    spec_edge_conflict_score, edge_conflict_score, input_port_usage, node_conflict, lists_conflict, anchor,
    edges_conflict, spec_port_usage, usage_view,
};
use crate::routing::spec_loop_siblings;
use crate::graph::{opt_view, clone_label};
use crate::layout::RenderEdge;
use crate::path::{
    EdgePath, spec_path_segments, count_orth, path_segments_count, spec_plen, spec_bends, seg_count,
    path_len_and_bends, orthogonal,
};
use crate::plan::{EdgePlan, plan_routable, all_small};
use crate::router::{route_edge_smart, spec_route_cands, small_pt};
use crate::routing::{
    spec_choose_best, edges_ok, total_pts, spec_spacing_penalty, path_spacing_penalty, lemma_segs_cap,
    lemma_route_sizes, lemma_path_segs_ok, edge_seg_lists, penalty_cap,
};

verus! {

/// The route the router gives edge `e` between the ports `sp` and `tp`,
/// given the edges already routed.
pub open spec fn spec_route(rs: Seq<Rect>, e: RenderEdge, pl: EdgePlan, ex: Seq<EdgePath>, sp: Pt, tp: Pt) -> Seq<Pt> {
    spec_choose_best(
        spec_route_cands(e.from, e.to, rs, pl.out_idx, pl.out_count, pl.src_split_y, pl.force_center, pl.prefer_side,
            sp, tp, spec_port_side(rs[e.from as int], sp), spec_port_side(rs[e.to as int], tp), pl.side_lane_x, pl.bounds),
        rs, e.from, e.to, ex)
}

/// How a route ranks: fewest orthogonal segments, then shortest, then
/// fewest bends (120 each) plus spacing penalty against the routed edges.
pub open spec fn route_key(c: Seq<Pt>, ex: Seq<EdgePath>) -> (int, int, int) {
    let segs = spec_path_segments(c);
    (count_orth(segs, segs.len() as int), spec_plen(c, seg_count(c)), spec_bends(c, seg_count(c)) * 120 + spec_spacing_penalty(c, ex))
}

pub open spec fn key_lt(a: (int, int, int), b: (int, int, int)) -> bool {
    a.0 < b.0 || (a.0 == b.0 && (a.1 < b.1 || (a.1 == b.1 && a.2 < b.2)))
}

/// The best route found so far, with its key and ports.
pub ghost struct Best {
    pub path: Seq<Pt>,
    pub key: (int, int, int),
    pub sp: Pt,
    pub tp: Pt,
}

pub open spec fn best_step(acc: Option<Best>, rs: Seq<Rect>, e: RenderEdge, pl: EdgePlan, ex: Seq<EdgePath>, sp: Pt, tp: Pt) -> Option<Best> {
    let c = spec_route(rs, e, pl, ex, sp, tp);
    let k = route_key(c, ex);
    match acc {
        None => Some(Best { path: c, key: k, sp, tp }),
        Some(b) => if key_lt(k, b.key) { Some(Best { path: c, key: k, sp, tp }) } else { acc },
    }
}

/// Trying the first `b` target ports with source port number `a`.
pub open spec fn best_cols(rs: Seq<Rect>, e: RenderEdge, pl: EdgePlan, ex: Seq<EdgePath>, a: int, b: int, init: Option<Best>) -> Option<Best>
    decreases b,
{
    if b <= 0 {
        init
    } else {
        best_step(best_cols(rs, e, pl, ex, a, b - 1, init), rs, e, pl, ex, pl.src_port_variants@[a], pl.dst_port_variants@[b - 1])
    }
}

/// Trying every target port with the first `a` source ports.
pub open spec fn best_rows(rs: Seq<Rect>, e: RenderEdge, pl: EdgePlan, ex: Seq<EdgePath>, a: int) -> Option<Best>
    decreases a,
{
    if a <= 0 {
        None
    } else {
        best_cols(rs, e, pl, ex, a - 1, pl.dst_port_variants@.len() as int, best_rows(rs, e, pl, ex, a - 1))
    }
}

/// The first route of least key over all pairs of candidate ports.
pub open spec fn spec_best(rs: Seq<Rect>, e: RenderEdge, pl: EdgePlan, ex: Seq<EdgePath>) -> Option<Best> {
    best_rows(rs, e, pl, ex, pl.src_port_variants@.len() as int)
}

pub open spec fn route_env_ok(rs: Seq<Rect>, e: RenderEdge, ex: Seq<EdgePath>) -> bool {
    &&& rects_ok(rs) && rs.len() <= 0x10_0000
    &&& e.from < rs.len() && e.to < rs.len()
    &&& edges_ok(ex) && total_pts(ex, ex.len() as int) <= 0x1_0000
}

proof fn lemma_plen_bound(p: Seq<Pt>, n: int)
    requires path_ok(p), 0 <= n < p.len(),
    ensures 0 <= spec_plen(p, n) <= n * 0x40_0000,
    decreases n,
{
    if n > 0 {
        lemma_plen_bound(p, n - 1);
        assert(pt_ok(p[n - 1]) && pt_ok(p[n]));
    }
}

proof fn lemma_bends_le(p: Seq<Pt>, n: int)
    requires 0 <= n,
    ensures 0 <= spec_bends(p, n) <= n,
    decreases n,
{
    if n > 1 {
        lemma_bends_le(p, n - 1);
    }
}

proof fn lemma_orth_le(s: Seq<crate::geometry::Seg>, n: int)
    requires 0 <= n,
    ensures 0 <= count_orth(s, n) <= n,
    decreases n,
{
    if n > 0 {
        lemma_orth_le(s, n - 1);
    }
}

/// Routes one candidate and computes its key.
#[verifier::spinoff_prover]
fn route_keyed(rects: &[Rect], e: &RenderEdge, pl: &EdgePlan, existing: &[EdgePath], sp: Pt, tp: Pt)
    -> (r: (Vec<Pt>, (i64, i64, i64)))
    requires
        route_env_ok(rects@, *e, existing@),
        plan_routable(*pl),
        small_pt(sp), small_pt(tp),
    ensures
        r.0@ == spec_route(rects@, *e, *pl, existing@, sp, tp),
        (r.1.0 as int, r.1.1 as int, r.1.2 as int) == route_key(r.0@, existing@),
        path_ok(r.0@), r.0@.len() > 0, r.0@.len() <= 0x100, r.0@.last() == tp, orthogonal(r.0@),
{
    let ss = port_side_from_point(rects[e.from], sp);
    let ds = port_side_from_point(rects[e.to], tp);
    let cand = route_edge_smart(
        e.from, e.to, rects, existing, pl.out_idx, pl.out_count, pl.src_split_y, pl.force_center, pl.prefer_side,
        sp, tp, ss, ds, pl.side_lane_x, pl.bounds,
    );
    proof {
        lemma_plen_bound(cand@, seg_count(cand@));
        lemma_bends_le(cand@, seg_count(cand@));
        lemma_orth_le(spec_path_segments(cand@), spec_path_segments(cand@).len() as int);
        lemma_route_sizes(cand@, existing@, false, 0, None);
        lemma_path_segs_ok(cand@);
        lemma_segs_cap(spec_path_segments(cand@), edge_seg_lists(existing@, false, 0, None),
            spec_path_segments(cand@).len() as int);
    }
    let (plen, bends) = path_len_and_bends(&cand);
    let segs = path_segments_count(&cand);
    let pen = path_spacing_penalty(&cand, existing);
    let secondary = (bends as i64) * 120 + pen;
    (cand, (segs, plen as i64, secondary))
}

/// The best route found so far by the executable search.
pub type Found = Option<(Vec<Pt>, (i64, i64, i64), Pt, Pt)>;

pub open spec fn found_view(f: Found) -> Option<Best> {
    match f {
        Some((p, k, sp, tp)) => Some(Best { path: p@, key: (k.0 as int, k.1 as int, k.2 as int), sp, tp }),
        None => None,
    }
}

pub open spec fn found_ok(f: Found) -> bool {
    match f {
        Some((p, k, sp, tp)) => path_ok(p@) && p@.len() > 0 && p@.len() <= 0x100 && p@.last() == tp && orthogonal(p@),
        None => true,
    }
}

#[verifier::spinoff_prover]
fn best_over_cols(rects: &[Rect], e: &RenderEdge, pl: &EdgePlan, existing: &[EdgePath], a: usize, init: Found) -> (r: Found)
    requires
        route_env_ok(rects@, *e, existing@),
        plan_routable(*pl),
        a < pl.src_port_variants@.len(),
        found_ok(init),
    ensures
        found_view(r) == best_cols(rects@, *e, *pl, existing@, a as int, pl.dst_port_variants@.len() as int, found_view(init)),
        found_ok(r),
        r is Some,
{
    let ghost rs = rects@;
    let ghost ex = existing@;
    let tv = &pl.dst_port_variants;
    let sp = pl.src_port_variants[a];
    proof { assert(small_pt(pl.src_port_variants@[a as int])); }
    let mut acc = init;
    let mut b: usize = 0;
    while b < tv.len()
        invariant
            b <= tv@.len(), rs == rects@, ex == existing@, tv == pl.dst_port_variants, a < pl.src_port_variants@.len(),
            sp == pl.src_port_variants@[a as int], small_pt(sp),
            route_env_ok(rs, *e, ex), plan_routable(*pl),
            found_view(acc) == best_cols(rs, *e, *pl, ex, a as int, b as int, found_view(init)),
            found_ok(acc),
            b > 0 ==> acc is Some,
        decreases tv@.len() - b,
    {
        let tp = tv[b];
        proof { assert(small_pt(tv@[b as int])); }
        let (cand, key) = route_keyed(rects, e, pl, existing, sp, tp);
        let better = match &acc {
            None => true,
            Some((_, bk, _, _)) => key.0 < bk.0 || (key.0 == bk.0 && (key.1 < bk.1 || (key.1 == bk.1 && key.2 < bk.2))),
        };
        if better {
            acc = Some((cand, key, sp, tp));
        }
        b += 1;
    }
    acc
}

/// The best route for edge `e` over all pairs of its candidate ports
/// (`spec_best`), with the ports it uses.
#[verifier::spinoff_prover]
pub fn route_best(rects: &[Rect], e: &RenderEdge, pl: &EdgePlan, existing: &[EdgePath]) -> (r: (Vec<Pt>, Pt, Pt))
    requires
        route_env_ok(rects@, *e, existing@),
        plan_routable(*pl),
    ensures
        spec_best(rects@, *e, *pl, existing@) is Some,
        r.0@ == spec_best(rects@, *e, *pl, existing@)->0.path,
        r.1 == spec_best(rects@, *e, *pl, existing@)->0.sp,
        r.2 == spec_best(rects@, *e, *pl, existing@)->0.tp,
        path_ok(r.0@), r.0@.len() > 0, r.0@.len() <= 0x100, r.0@.last() == r.2, orthogonal(r.0@),
{
    let ghost rs = rects@;
    let ghost ex = existing@;
    let mut acc: Found = None;
    let mut a: usize = 0;
    while a < pl.src_port_variants.len()
        invariant
            a <= pl.src_port_variants@.len(), rs == rects@, ex == existing@,
            route_env_ok(rs, *e, ex), plan_routable(*pl),
            found_view(acc) == best_rows(rs, *e, *pl, ex, a as int),
            found_ok(acc),
            a > 0 ==> acc is Some,
        decreases pl.src_port_variants@.len() - a,
    {
        acc = best_over_cols(rects, e, pl, existing, a, acc);
        a += 1;
    }
    match acc {
        Some((p, _, sp, tp)) => (p, sp, tp),
        None => {
            proof { assert(false); }
            (Vec::new(), (0, 0), (0, 0))
        },
    }
}

/// `new` is `old` with the route's ports `sp` and `tp` (and their sides).
pub open spec fn plan_moved(old: EdgePlan, new: EdgePlan, rs: Seq<Rect>, e: RenderEdge, sp: Pt, tp: Pt) -> bool {
    &&& new.out_idx == old.out_idx && new.out_count == old.out_count && new.src_split_y == old.src_split_y
    &&& new.force_center == old.force_center && new.prefer_side == old.prefer_side
    &&& new.src_port_variants@ == old.src_port_variants@ && new.dst_port_variants@ == old.dst_port_variants@
    &&& new.side_lane_x == old.side_lane_x && new.bounds == old.bounds
    &&& new.sx_override == sp && new.tx_override == tp
    &&& new.src_side == spec_port_side(rs[e.from as int], sp) && new.dst_side == spec_port_side(rs[e.to as int], tp)
}

#[verifier::spinoff_prover]
fn moved_plan(pl: &EdgePlan, rects: &[Rect], e: &RenderEdge, sp: Pt, tp: Pt) -> (r: EdgePlan)
    requires e.from < rects@.len(), e.to < rects@.len(),
    ensures plan_moved(*pl, r, rects@, *e, sp, tp),
{
    EdgePlan {
        out_idx: pl.out_idx,
        out_count: pl.out_count,
        src_split_y: pl.src_split_y,
        force_center: pl.force_center,
        prefer_side: pl.prefer_side,
        sx_override: sp,
        tx_override: tp,
        src_side: port_side_from_point(rects[e.from], sp),
        dst_side: port_side_from_point(rects[e.to], tp),
        src_port_variants: crate::path::copy_path(&pl.src_port_variants),
        dst_port_variants: crate::path::copy_path(&pl.dst_port_variants),
        side_lane_x: pl.side_lane_x,
        bounds: pl.bounds,
    }
}

/// Edge `k` of the routed list joins the same nodes, with the same label,
/// as edge `k` of the graph.
pub open spec fn routed_as(ps: Seq<EdgePath>, es: Seq<RenderEdge>) -> bool {
    &&& ps.len() == es.len()
    &&& forall|k: int| 0 <= k < ps.len() ==> (#[trigger] ps[k]).from == es[k].from && ps[k].to == es[k].to
        && opt_view(ps[k].label) == opt_view(es[k].label)
}

pub open spec fn plans_routable(pls: Seq<EdgePlan>) -> bool {
    forall|k: int| 0 <= k < pls.len() ==> plan_routable(#[trigger] pls[k])
}

proof fn lemma_total_pts_push(es: Seq<EdgePath>, e: EdgePath)
    ensures total_pts(es.push(e), es.len() + 1int) == total_pts(es, es.len() as int) + e.path@.len(),
{
    lemma_total_pts_prefix(es.push(e), es, es.len() as int);
}

proof fn lemma_total_pts_prefix(a: Seq<EdgePath>, b: Seq<EdgePath>, j: int)
    requires 0 <= j <= b.len(), j <= a.len(), forall|i: int| 0 <= i < j ==> a[i] == b[i],
    ensures total_pts(a, j) == total_pts(b, j),
    decreases j,
{
    if j > 0 {
        lemma_total_pts_prefix(a, b, j - 1);
    }
}

/// The first pass cannot go on: `ps` routes the edges before edge
/// `ps.len()` as the pass does, and the best route of that edge would take
/// the routes over 0x1_0000 points in all.
pub open spec fn initial_overflow(rs: Seq<Rect>, es: Seq<RenderEdge>, q0: Seq<EdgePlan>, ps: Seq<EdgePath>) -> bool {
    &&& ps.len() < es.len()
    &&& forall|q: int| 0 <= q < ps.len() ==> {
        let b = #[trigger] spec_best(rs, es[q], q0[q], ps.take(q));
        &&& b is Some
        &&& ps[q].path@ == b->0.path
    }
    &&& spec_best(rs, es[ps.len() as int], q0[ps.len() as int], ps) is Some
    &&& total_pts(ps, ps.len() as int) + spec_best(rs, es[ps.len() as int], q0[ps.len() as int], ps)->0.path.len() > 0x1_0000
}

/// The first routing pass: in graph order, each edge takes the best route
/// over its pairs of candidate ports against the edges routed before it
/// (`spec_best`), and its plan records the ports that route uses. `None`
/// when the routes would hold more than 0x1_0000 points in all, beyond
/// which the router's penalty sums could leave `i64` (`route_sizes_ok`).
#[verifier::spinoff_prover]
pub fn route_initial(rects: &[Rect], edges: &[RenderEdge], plans: &mut Vec<EdgePlan>) -> (r: Option<Vec<EdgePath>>)
    requires
        rects_ok(rects@), rects@.len() <= 0x10_0000,
        crate::layout::edges_in(edges@, rects@.len() as int),
        old(plans)@.len() == edges@.len(),
        plans_routable(old(plans)@),
    ensures
        final(plans)@.len() == edges@.len(),
        plans_routable(final(plans)@),
        r matches Some(ps) ==> {
            &&& routed_as(ps@, edges@)
            &&& edges_ok(ps@) && total_pts(ps@, ps@.len() as int) <= 0x1_0000 && all_orth(ps@)
            &&& forall|k: int| 0 <= k < ps@.len() ==> {
                let b = #[trigger] spec_best(rects@, edges@[k], old(plans)@[k], ps@.take(k));
                &&& b is Some
                &&& ps@[k].path@ == b->0.path
                &&& plan_moved(old(plans)@[k], final(plans)@[k], rects@, edges@[k], b->0.sp, b->0.tp)
            }
        },
        r is None ==> exists|ps: Seq<EdgePath>| #[trigger] initial_overflow(rects@, edges@, old(plans)@, ps),
{
    let ghost p0 = plans@;
    let m = edges.len();
    let mut paths: Vec<EdgePath> = Vec::new();
    let mut total: usize = 0;
    let mut k: usize = 0;
    while k < m
        invariant
            k <= m, m == edges@.len(), rects_ok(rects@), rects@.len() <= 0x10_0000,
            crate::layout::edges_in(edges@, rects@.len() as int),
            plans@.len() == m, p0.len() == m, plans_routable(plans@), plans_routable(p0), p0 == old(plans)@,
            forall|q: int| k <= q < m ==> #[trigger] plans@[q] == p0[q],
            paths@.len() == k,
            edges_ok(paths@), total == total_pts(paths@, k as int), total <= 0x1_0000, all_orth(paths@),
            forall|q: int| 0 <= q < k ==> (#[trigger] paths@[q]).from == edges@[q].from && paths@[q].to == edges@[q].to
                && opt_view(paths@[q].label) == opt_view(edges@[q].label),
            forall|q: int| 0 <= q < k ==> {
                let b = #[trigger] spec_best(rects@, edges@[q], p0[q], paths@.take(q));
                &&& b is Some
                &&& paths@[q].path@ == b->0.path
                &&& plan_moved(p0[q], plans@[q], rects@, edges@[q], b->0.sp, b->0.tp)
            },
        decreases m - k,
    {
        let e = &edges[k];
        proof {
            assert(plans@[k as int] == p0[k as int]);
            assert(plan_routable(p0[k as int]));
        }
        let (best, sp, tp) = route_best(rects, e, &plans[k], &paths);
        if total + best.len() > 0x1_0000 {
            proof {
                assert(plans@[k as int] == p0[k as int]);
                assert(initial_overflow(rects@, edges@, p0, paths@));
            }
            return None;
        }
        let np = moved_plan(&plans[k], rects, e, sp, tp);
        proof {
            assert(small_pt(sp)) by {
                let b = spec_best(rects@, edges@[k as int], p0[k as int], paths@);
                lemma_best_ports(rects@, edges@[k as int], p0[k as int], paths@, p0[k as int].src_port_variants@.len() as int);
            }
            assert(plan_routable(np)) by {
                lemma_best_ports(rects@, edges@[k as int], p0[k as int], paths@, p0[k as int].src_port_variants@.len() as int);
            }
        }
        plans.set(k, np);
        let ghost old_paths = paths@;
        let ep = EdgePath { from: e.from, to: e.to, label: clone_label(&e.label), path: best };
        proof { lemma_total_pts_push(old_paths, ep); }
        paths.push(ep);
        total = total + ep_len(&paths, k);
        proof {
            assert(paths@.take(k as int) =~= old_paths);
            assert forall|q: int| 0 <= q < k implies #[trigger] paths@.take(q) == old_paths.take(q) by {
                assert(paths@.take(q) =~= old_paths.take(q));
            }
        }
        k += 1;
    }
    proof {
        assert(routed_as(paths@, edges@));
    }
    Some(paths)
}

#[verifier::spinoff_prover]
fn ep_len(paths: &Vec<EdgePath>, k: usize) -> (r: usize)
    requires k < paths@.len(),
    ensures r == paths@[k as int].path@.len(),
{
    paths[k].path.len()
}

/// The best route's ports are among the plan's candidates.
proof fn lemma_best_ports(rs: Seq<Rect>, e: RenderEdge, pl: EdgePlan, ex: Seq<EdgePath>, a: int)
    requires plan_routable(pl), 0 <= a <= pl.src_port_variants@.len(),
    ensures
        best_rows(rs, e, pl, ex, a) matches Some(b) ==> small_pt(b.sp) && small_pt(b.tp),
    decreases a,
{
    if a > 0 {
        lemma_best_ports(rs, e, pl, ex, a - 1);
        lemma_cols_ports(rs, e, pl, ex, a - 1, pl.dst_port_variants@.len() as int, best_rows(rs, e, pl, ex, a - 1));
    }
}

proof fn lemma_cols_ports(rs: Seq<Rect>, e: RenderEdge, pl: EdgePlan, ex: Seq<EdgePath>, a: int, b: int, init: Option<Best>)
    requires
        plan_routable(pl), 0 <= a < pl.src_port_variants@.len(), 0 <= b <= pl.dst_port_variants@.len(),
        init matches Some(x) ==> small_pt(x.sp) && small_pt(x.tp),
    ensures
        best_cols(rs, e, pl, ex, a, b, init) matches Some(x) ==> small_pt(x.sp) && small_pt(x.tp),
    decreases b,
{
    if b > 0 {
        lemma_cols_ports(rs, e, pl, ex, a, b - 1, init);
        assert(small_pt(pl.src_port_variants@[a]));
        assert(small_pt(pl.dst_port_variants@[b - 1]));
    }
}

/// The route edge `i` gets when routed again against the other edges,
/// between `sx` (on side `ss`) and `tx` (on side `ds`), with the rest of
/// its plan.
pub open spec fn spec_reroute(
    rs: Seq<Rect>, ps: Seq<EdgePath>, i: int, pl: EdgePlan, force_center: bool, sx: Pt, tx: Pt, ss: Side, ds: Side,
) -> Seq<Pt> {
    let e = ps[i];
    spec_choose_best(
        spec_route_cands(e.from, e.to, rs, pl.out_idx, pl.out_count, pl.src_split_y, force_center, pl.prefer_side,
            sx, tx, ss, ds, pl.side_lane_x, pl.bounds),
        rs, e.from, e.to, ps.remove(i))
}

/// Every routed path is orthogonal.
pub open spec fn all_orth(ps: Seq<EdgePath>) -> bool {
    forall|k: int| 0 <= k < ps.len() ==> orthogonal((#[trigger] ps[k]).path@)
}

/// The layout invariant the passes keep: valid orthogonal paths, at most
/// 0x1_0000 points in all, and the routed edges joining the graph's edges.
pub open spec fn layout_ok(ps: Seq<EdgePath>, es: Seq<RenderEdge>, rs: Seq<Rect>) -> bool {
    &&& routed_as(ps, es)
    &&& edges_ok(ps) && total_pts(ps, ps.len() as int) <= 0x1_0000 && all_orth(ps)
    &&& rects_ok(rs) && rs.len() <= 0x10_0000
    &&& crate::layout::edges_in(es, rs.len() as int)
}

/// `b` is `a` with the path of edge `i` replaced by `p`.
pub open spec fn path_replaced(a: Seq<EdgePath>, b: Seq<EdgePath>, i: int, p: Seq<Pt>) -> bool {
    &&& a.len() == b.len()
    &&& forall|j: int| 0 <= j < a.len() && j != i ==> #[trigger] b[j] == a[j]
    &&& b[i].from == a[i].from && b[i].to == a[i].to && opt_view(b[i].label) == opt_view(a[i].label)
    &&& b[i].path@ == p
}

proof fn lemma_total_pts_remove(ps: Seq<EdgePath>, i: int, j: int)
    requires 0 <= i < ps.len(), 0 <= j <= ps.len(),
    ensures
        total_pts(ps.remove(i), if j <= i { j } else { j - 1 })
            == total_pts(ps, j) - if j > i { ps[i].path@.len() as int } else { 0int },
    decreases j,
{
    if j > 0 {
        lemma_total_pts_remove(ps, i, j - 1);
        if j - 1 > i {
            assert(ps.remove(i)[j - 2] == ps[j - 1]);
        } else if j - 1 < i {
            assert(ps.remove(i)[j - 1] == ps[j - 1]);
        }
    }
}

proof fn lemma_total_pts_replaced(a: Seq<EdgePath>, b: Seq<EdgePath>, i: int, p: Seq<Pt>, j: int)
    requires path_replaced(a, b, i, p), 0 <= i < a.len(), 0 <= j <= a.len(),
    ensures total_pts(b, j) == total_pts(a, j) + if j > i { p.len() - a[i].path@.len() } else { 0int },
    decreases j,
{
    if j > 0 {
        lemma_total_pts_replaced(a, b, i, p, j - 1);
    }
}

proof fn lemma_edges_ok_remove(ps: Seq<EdgePath>, i: int)
    requires edges_ok(ps), 0 <= i < ps.len(),
    ensures edges_ok(ps.remove(i)),
{
    assert forall|j: int| 0 <= j < ps.remove(i).len() implies path_ok((#[trigger] ps.remove(i)[j]).path@) by {
        if j < i { assert(ps.remove(i)[j] == ps[j]); } else { assert(ps.remove(i)[j] == ps[j + 1]); }
    }
}

#[verifier::spinoff_prover]
fn total_points(ps: &Vec<EdgePath>) -> (t: usize)
    requires total_pts(ps@, ps@.len() as int) <= 0x1_0000 + 0x100,
    ensures t == total_pts(ps@, ps@.len() as int),
{
    let mut t: usize = 0;
    let mut j: usize = 0;
    while j < ps.len()
        invariant
            j <= ps@.len(), t == total_pts(ps@, j as int),
            total_pts(ps@, ps@.len() as int) <= 0x1_0000 + 0x100,
        decreases ps@.len() - j,
    {
        proof { lemma_total_mono(ps@, j + 1, ps@.len() as int); }
        t = t + ps[j].path.len();
        j += 1;
    }
    t
}

proof fn lemma_total_mono(es: Seq<EdgePath>, a: int, b: int)
    requires 0 <= a <= b <= es.len(),
    ensures 0 <= total_pts(es, a) <= total_pts(es, b),
    decreases b,
{
    if b > a {
        lemma_total_mono(es, a, b - 1);
    } else if a > 0 {
        lemma_total_mono(es, a - 1, a - 1);
    }
}

/// The conflict of edge `e` with edge `o` if `e` took the path `p`.
pub open spec fn pair_conflict_if(e: EdgePath, p: Seq<Pt>, o: EdgePath) -> int {
    let my = spec_path_segments(p);
    let oth = spec_path_segments(o.path@);
    lists_conflict(my, oth, e.from == o.from && anchor(p) == anchor(o.path@), spec_loop_siblings(e, o), my.len() as int)
}

pub open spec fn edges_conflict_if(es: Seq<EdgePath>, i: int, p: Seq<Pt>, j: int) -> int
    decreases j,
{
    if j <= 0 { 0 } else { edges_conflict_if(es, i, p, j - 1) + if j - 1 == i { 0 } else { pair_conflict_if(es[i], p, es[j - 1]) } }
}

/// The conflict score edge `i` would have with the path `p`.
pub open spec fn score_if(i: int, es: Seq<EdgePath>, rects: Seq<Rect>, p: Seq<Pt>) -> int {
    node_conflict(p, rects, es[i].from, es[i].to, seg_count(p)) + edges_conflict_if(es, i, p, es.len() as int)
}

proof fn lemma_edges_conflict_if(a: Seq<EdgePath>, b: Seq<EdgePath>, i: int, p: Seq<Pt>, j: int)
    requires path_replaced(a, b, i, p), 0 <= i < a.len(), 0 <= j <= a.len(),
    ensures edges_conflict(b, i, j) == edges_conflict_if(a, i, p, j),
    decreases j,
{
    if j > 0 {
        lemma_edges_conflict_if(a, b, i, p, j - 1);
        if j - 1 != i {
            assert(b[j - 1] == a[j - 1]);
            assert(spec_loop_siblings(b[i], a[j - 1]) == spec_loop_siblings(a[i], a[j - 1]));
        }
    }
}

/// Replacing edge `i`'s path by `p` gives it the score `score_if` says.
pub proof fn lemma_score_if(a: Seq<EdgePath>, b: Seq<EdgePath>, i: int, p: Seq<Pt>, rects: Seq<Rect>)
    requires path_replaced(a, b, i, p), 0 <= i < a.len(),
    ensures spec_edge_conflict_score(i, b, rects) == score_if(i, a, rects, p),
{
    lemma_edges_conflict_if(a, b, i, p, a.len() as int);
}

/// Whether re-routing edge `i` to `cand` is kept: it enters validly (when
/// asked), the layout stays within 0x1_0000 points, and its conflict score
/// passes `rule`.
pub open spec fn route_kept(
    ps: Seq<EdgePath>, i: int, rects: Seq<Rect>, es: Seq<RenderEdge>, cand: Seq<Pt>, rule: Accept, check_entry: bool,
) -> bool {
    &&& (check_entry ==> spec_incoming_dir_valid(cand, rects[es[i].to as int]).0)
    &&& total_pts(ps, ps.len() as int) - ps[i].path@.len() + cand.len() <= 0x1_0000
    &&& accepted(rule, score_if(i, ps, rects, cand), spec_edge_conflict_score(i, ps, rects))
}

/// How a re-route is accepted: only when it lowers the edge's conflict
/// score, or also when it keeps it level.
#[derive(Debug, Clone, Copy, PartialEq, Eq, Structural)]
pub enum Accept {
    Lower,
    NotHigher,
    Any,
}

pub open spec fn accepted(rule: Accept, new_score: int, old_score: int) -> bool {
    match rule {
        Accept::Lower => new_score < old_score,
        Accept::NotHigher => new_score <= old_score,
        Accept::Any => true,
    }
}

/// Routes edge `i` again (`spec_reroute`) and keeps the new path when the
/// edge's conflict score passes `rule` (and, with `check_entry`, when the
/// path enters its target from a valid direction, and the layout stays
/// within 0x1_0000 points); otherwise leaves the layout as it was.
/// Returns the replaced edge when the new path was kept.
#[verifier::spinoff_prover]
fn try_route_saving(
    paths: &mut Vec<EdgePath>, i: usize, rects: &[Rect], edges: &[RenderEdge], pl: &EdgePlan,
    force_center: bool, sx: Pt, tx: Pt, ss: Side, ds: Side, rule: Accept, check_entry: bool,
) -> (saved: Option<EdgePath>)
    requires
        layout_ok(old(paths)@, edges@, rects@),
        i < old(paths)@.len(),
        plan_routable(*pl), small_pt(sx), small_pt(tx),
    ensures
        layout_ok(final(paths)@, edges@, rects@),
        ({
            let cand = spec_reroute(rects@, old(paths)@, i as int, *pl, force_center, sx, tx, ss, ds);
            &&& saved is Some == route_kept(old(paths)@, i as int, rects@, edges@, cand, rule, check_entry)
            &&& saved is Some ==> path_replaced(old(paths)@, final(paths)@, i as int, cand)
                && saved->0 == old(paths)@[i as int]
            &&& saved is None ==> final(paths)@ == old(paths)@
        }),
{
    let ghost ps = paths@;
    proof {
        lemma_total_mono(ps, i as int, ps.len() as int);
        lemma_total_mono(ps, i + 1, ps.len() as int);
    }
    let old_score = edge_conflict_score(i, paths, rects);
    let old_ep = paths.remove(i);
    proof {
        lemma_edges_ok_remove(ps, i as int);
        lemma_total_pts_remove(ps, i as int, ps.len() as int);
        assert(old_ep == ps[i as int]);
        assert(routed_as(ps, edges@));
        assert(ps[i as int].from == edges@[i as int].from && ps[i as int].to == edges@[i as int].to);
    }
    let cand = route_edge_smart(
        old_ep.from, old_ep.to, rects, paths, pl.out_idx, pl.out_count, pl.src_split_y, force_center, pl.prefer_side,
        sx, tx, ss, ds, pl.side_lane_x, pl.bounds,
    );
    if check_entry {
        let (ok, _) = incoming_dir_valid(&cand, rects[old_ep.to]);
        if !ok {
            paths.insert(i, old_ep);
            proof { assert(paths@ =~= ps); }
            return None;
        }
    }
    let new_ep = EdgePath { from: old_ep.from, to: old_ep.to, label: clone_label(&old_ep.label), path: cand };
    paths.insert(i, new_ep);
    proof {
        assert(path_replaced(ps, paths@, i as int, cand@)) by {
            assert forall|j: int| 0 <= j < ps.len() && j != i implies #[trigger] paths@[j] == ps[j] by {
                if j < i { assert(paths@[j] == ps.remove(i as int)[j]); } else { assert(paths@[j] == ps.remove(i as int)[j - 1]); }
            }
        }
        lemma_total_pts_replaced(ps, paths@, i as int, cand@, ps.len() as int);
        lemma_score_if(ps, paths@, i as int, cand@, rects@);
    }
    let t = total_points(paths);
    if t > 0x1_0000 {
        let _ = paths.remove(i);
        paths.insert(i, old_ep);
        proof { assert(paths@ =~= ps); }
        return None;
    }
    proof {
        assert(edges_ok(paths@)) by {
            assert forall|j: int| 0 <= j < paths@.len() implies path_ok((#[trigger] paths@[j]).path@) by {
                if j != i { assert(paths@[j] == ps[j]); }
            }
        }
        assert(all_orth(paths@)) by {
            assert forall|j: int| 0 <= j < paths@.len() implies orthogonal((#[trigger] paths@[j]).path@) by {
                if j != i { assert(paths@[j] == ps[j]); }
            }
        }
        assert(routed_as(paths@, edges@)) by {
            assert forall|j: int| 0 <= j < paths@.len() implies (#[trigger] paths@[j]).from == edges@[j].from
                && paths@[j].to == edges@[j].to && opt_view(paths@[j].label) == opt_view(edges@[j].label) by {
                if j != i { assert(paths@[j] == ps[j]); }
            }
        }
    }
    let new_score = edge_conflict_score(i, paths, rects);
    let keep = match rule {
        Accept::Lower => new_score < old_score,
        Accept::NotHigher => new_score <= old_score,
        Accept::Any => true,
    };
    if keep {
        Some(old_ep)
    } else {
        let _ = paths.remove(i);
        paths.insert(i, old_ep);
        proof { assert(paths@ =~= ps); }
        None
    }
}

/// Routes edge `i` again (`spec_reroute`) and keeps the new path when
/// `route_kept` says so; otherwise leaves the layout as it was. Returns
/// whether the new path was kept.
#[verifier::spinoff_prover]
pub fn try_route(
    paths: &mut Vec<EdgePath>, i: usize, rects: &[Rect], edges: &[RenderEdge], pl: &EdgePlan,
    force_center: bool, sx: Pt, tx: Pt, ss: Side, ds: Side, rule: Accept, check_entry: bool,
) -> (kept: bool)
    requires
        layout_ok(old(paths)@, edges@, rects@),
        i < old(paths)@.len(),
        plan_routable(*pl), small_pt(sx), small_pt(tx),
    ensures
        layout_ok(final(paths)@, edges@, rects@),
        ({
            let cand = spec_reroute(rects@, old(paths)@, i as int, *pl, force_center, sx, tx, ss, ds);
            &&& kept == route_kept(old(paths)@, i as int, rects@, edges@, cand, rule, check_entry)
            &&& kept ==> path_replaced(old(paths)@, final(paths)@, i as int, cand)
            &&& !kept ==> final(paths)@ == old(paths)@
        }),
{
    try_route_saving(paths, i, rects, edges, pl, force_center, sx, tx, ss, ds, rule, check_entry).is_some()
}

/// Whether `(a, i)` ranks before `(b, j)`: higher score first, then higher index.
pub open spec fn rank_before(a: int, i: int, b: int, j: int) -> bool {
    a > b || (a == b && i > j)
}

/// Routing edge `i` again with its plan's ports: whether the new route is
/// kept under `rule`.
pub open spec fn step_kept(ps: Seq<EdgePath>, i: int, rects: Seq<Rect>, es: Seq<RenderEdge>, pls: Seq<EdgePlan>, rule: Accept) -> bool {
    let pl = pls[i];
    route_kept(ps, i, rects, es,
        spec_reroute(rects, ps, i, pl, pl.force_center, pl.sx_override, pl.tx_override, pl.src_side, pl.dst_side), rule, false)
}

/// One step of a pass: `ps2` is `ps` with edge `i` routed again with its
/// plan's ports if the new route is kept, else `ps` itself.
pub open spec fn plan_step(ps: Seq<EdgePath>, ps2: Seq<EdgePath>, i: int, rects: Seq<Rect>, es: Seq<RenderEdge>, pls: Seq<EdgePlan>, rule: Accept) -> bool {
    let pl = pls[i];
    if step_kept(ps, i, rects, es, pls, rule) {
        path_replaced(ps, ps2, i,
            spec_reroute(rects, ps, i, pl, pl.force_center, pl.sx_override, pl.tx_override, pl.src_side, pl.dst_side))
    } else {
        ps2 == ps
    }
}

/// The conflict scores of all edges.
pub open spec fn all_scores(ps: Seq<EdgePath>, rects: Seq<Rect>) -> Seq<int> {
    Seq::new(ps.len(), |q: int| spec_edge_conflict_score(q, ps, rects))
}

/// `v` lists exactly the edges with a positive score in `sc`, from the
/// highest score down (ties: higher index first).
pub open spec fn ranked(sc: Seq<int>, v: Seq<usize>) -> bool {
    &&& forall|k: int| 0 <= k < v.len() ==> (#[trigger] v[k]) < sc.len() && sc[v[k] as int] > 0
    &&& forall|a: int, b: int| 0 <= a < b < v.len() ==>
        rank_before(sc[#[trigger] v[a] as int], v[a] as int, sc[#[trigger] v[b] as int], v[b] as int)
    &&& forall|q: int| 0 <= q < sc.len() && sc[q] > 0 ==> exists|k: int| 0 <= k < v.len() && #[trigger] v[k] == q
}

/// The steps of a pass: starting from `tr[0]`, the edges of `v` in turn.
pub open spec fn pass_trace(tr: Seq<Seq<EdgePath>>, v: Seq<usize>, rects: Seq<Rect>, es: Seq<RenderEdge>, pls: Seq<EdgePlan>, rule: Accept) -> bool {
    &&& tr.len() == v.len() + 1
    &&& forall|k: int| 0 <= k < v.len() ==> plan_step(#[trigger] tr[k], tr[k + 1], v[k] as int, rects, es, pls, rule)
}


/// The undone edge of highest rank with a positive score (`len` if none).
#[verifier::spinoff_prover]
fn pick_next(scores: &Vec<i64>, done: &Vec<bool>) -> (best: usize)
    requires scores@.len() == done@.len(),
    ensures
        best <= scores@.len(),
        best == scores@.len() ==> forall|r: int| 0 <= r < scores@.len() ==> done@[r] || scores@[r] <= 0,
        best < scores@.len() ==> !done@[best as int] && scores@[best as int] > 0
            && forall|r: int| 0 <= r < scores@.len() && !done@[r] && scores@[r] > 0 && r != best ==>
                rank_before(scores@[best as int] as int, best as int, scores@[r] as int, r),
{
    let m = scores.len();
    let mut best: usize = m;
    let mut q: usize = 0;
    while q < m
        invariant
            q <= m, m == scores@.len(), done@.len() == m, best <= m,
            best == m ==> forall|r: int| 0 <= r < q ==> done@[r] || scores@[r] <= 0,
            best < m ==> best < q && !done@[best as int] && scores@[best as int] > 0
                && forall|r: int| 0 <= r < q && !done@[r] && scores@[r] > 0 && r != best ==>
                    rank_before(scores@[best as int] as int, best as int, scores@[r] as int, r),
        decreases m - q,
    {
        if !done[q] && scores[q] > 0 {
            if best == m || scores[q] > scores[best] || (scores[q] == scores[best] && q > best) {
                best = q;
            }
        }
        q += 1;
    }
    best
}

proof fn lemma_pass_extend(
    v: Seq<usize>, tr: Seq<Seq<EdgePath>>, best: usize, before: Seq<EdgePath>, after: Seq<EdgePath>, kept: bool,
    was_improved: bool, sc: Seq<int>, old_done: Seq<bool>, done: Seq<bool>, m: int, p0: Seq<EdgePath>,
    rects: Seq<Rect>, es: Seq<RenderEdge>, pls: Seq<EdgePlan>,
)
    requires
        0 <= best < m, sc.len() == m, old_done.len() == m, done == old_done.update(best as int, true),
        !old_done[best as int], sc[best as int] > 0,
        forall|r: int| 0 <= r < m && !old_done[r] && sc[r] > 0 && r != best ==> rank_before(sc[best as int], best as int, sc[r], r),
        forall|k: int| 0 <= k < v.len() ==> (#[trigger] v[k]) < m && sc[v[k] as int] > 0 && old_done[v[k] as int],
        forall|q: int| 0 <= q < m && old_done[q] ==> exists|k: int| 0 <= k < v.len() && #[trigger] v[k] == q,
        forall|a: int, b: int| 0 <= a < b < v.len() ==>
            rank_before(sc[#[trigger] v[a] as int], v[a] as int, sc[#[trigger] v[b] as int], v[b] as int),
        forall|k: int, q: int| #![trigger v[k], old_done[q]] 0 <= k < v.len() && 0 <= q < m && !old_done[q] && sc[q] > 0 ==>
            rank_before(sc[v[k] as int], v[k] as int, sc[q], q),
        pass_trace(tr, v, rects, es, pls, Accept::Lower),
        tr[0] == p0, tr[v.len() as int] == before,
        was_improved <==> exists|k: int| 0 <= k < v.len() && #[trigger] step_kept(tr[k], v[k] as int, rects, es, pls, Accept::Lower),
        !was_improved ==> before == p0,
        kept == step_kept(before, best as int, rects, es, pls, Accept::Lower),
        plan_step(before, after, best as int, rects, es, pls, Accept::Lower),
        !kept ==> after == before,
    ensures ({
        let v2 = v.push(best);
        let tr2 = tr.push(after);
        let improved = was_improved || kept;
        &&& forall|k: int| 0 <= k < v2.len() ==> (#[trigger] v2[k]) < m && sc[v2[k] as int] > 0 && done[v2[k] as int]
        &&& forall|q: int| 0 <= q < m && done[q] ==> exists|k: int| 0 <= k < v2.len() && #[trigger] v2[k] == q
        &&& forall|a: int, b: int| 0 <= a < b < v2.len() ==>
            rank_before(sc[#[trigger] v2[a] as int], v2[a] as int, sc[#[trigger] v2[b] as int], v2[b] as int)
        &&& forall|k: int, q: int| #![trigger v2[k], done[q]] 0 <= k < v2.len() && 0 <= q < m && !done[q] && sc[q] > 0 ==>
            rank_before(sc[v2[k] as int], v2[k] as int, sc[q], q)
        &&& pass_trace(tr2, v2, rects, es, pls, Accept::Lower)
        &&& tr2[0] == p0 && tr2[v2.len() as int] == after
        &&& (improved <==> exists|k: int| 0 <= k < v2.len() && #[trigger] step_kept(tr2[k], v2[k] as int, rects, es, pls, Accept::Lower))
        &&& (!improved ==> after == p0)
    }),
{
    let v2 = v.push(best);
    let tr2 = tr.push(after);
    let n = v.len() as int;
    assert forall|k: int| 0 <= k < v2.len() implies plan_step(#[trigger] tr2[k], tr2[k + 1], v2[k] as int, rects, es, pls, Accept::Lower) by {
        if k < n {
            assert(tr2[k] == tr[k] && tr2[k + 1] == tr[k + 1] && v2[k] == v[k]);
        } else {
            assert(tr2[k] == before && tr2[k + 1] == after && v2[k] == best);
        }
    }
    assert forall|q: int| 0 <= q < m && done[q] implies exists|k: int| 0 <= k < v2.len() && #[trigger] v2[k] == q by {
        if q == best {
            assert(v2[n] == q);
        } else {
            assert(old_done[q]);
            let k = choose|k: int| 0 <= k < v.len() && v[k] == q;
            assert(v2[k] == q);
        }
    }
    assert forall|a: int, b: int| 0 <= a < b < v2.len() implies
        rank_before(sc[#[trigger] v2[a] as int], v2[a] as int, sc[#[trigger] v2[b] as int], v2[b] as int) by {
        if b == n {
            assert(v2[a] == v[a]);
        } else {
            assert(v2[a] == v[a] && v2[b] == v[b]);
        }
    }
    assert forall|k: int, q: int| #![trigger v2[k], done[q]] 0 <= k < v2.len() && 0 <= q < m && !done[q] && sc[q] > 0 implies
        rank_before(sc[v2[k] as int], v2[k] as int, sc[q], q) by {
        if k == n {
            assert(q != best);
        } else {
            assert(v2[k] == v[k]);
            assert(!old_done[q]);
        }
    }
    let improved = was_improved || kept;
    if improved {
        if kept {
            assert(step_kept(tr2[n], v2[n] as int, rects, es, pls, Accept::Lower));
        } else {
            let k0 = choose|k: int| 0 <= k < v.len() && #[trigger] step_kept(tr[k], v[k] as int, rects, es, pls, Accept::Lower);
            assert(tr2[k0] == tr[k0] && v2[k0] == v[k0]);
            assert(step_kept(tr2[k0], v2[k0] as int, rects, es, pls, Accept::Lower));
        }
    } else {
        assert forall|k: int| 0 <= k < v2.len() implies !#[trigger] step_kept(tr2[k], v2[k] as int, rects, es, pls, Accept::Lower) by {
            if k < n {
                assert(tr2[k] == tr[k] && v2[k] == v[k]);
            }
        }
    }
}

/// One improvement pass. The edges whose conflict score is positive at
/// the start of the pass are visited from the highest score down (ties:
/// higher index first); each is routed again with its plan's ports, and
/// the new route is kept only when it lowers the edge's score
/// (`plan_step` with `Accept::Lower`). Returns whether some new route was
/// kept.
#[verifier::spinoff_prover]
#[verifier::rlimit(40)]
pub fn improve_pass(paths: &mut Vec<EdgePath>, rects: &[Rect], edges: &[RenderEdge], plans: &[EdgePlan]) -> (improved: bool)
    requires
        layout_ok(old(paths)@, edges@, rects@),
        plans@.len() == edges@.len(),
        plans_routable(plans@),
    ensures
        layout_ok(final(paths)@, edges@, rects@),
        exists|v: Seq<usize>, tr: Seq<Seq<EdgePath>>| {
            &&& ranked(all_scores(old(paths)@, rects@), v)
            &&& pass_trace(tr, v, rects@, edges@, plans@, Accept::Lower)
            &&& tr[0] == old(paths)@ && tr[v.len() as int] == final(paths)@
            &&& (improved <==> exists|k: int| 0 <= k < v.len() && #[trigger] step_kept(tr[k], v[k] as int, rects@, edges@, plans@, Accept::Lower))
        },
        !improved ==> final(paths)@ == old(paths)@,
{
    let m = paths.len();
    let ghost p0 = paths@;
    let ghost sc = all_scores(p0, rects@);
    let mut scores: Vec<i64> = Vec::new();
    let mut k: usize = 0;
    while k < m
        invariant
            k <= m, m == paths@.len(), paths@ == p0, layout_ok(paths@, edges@, rects@), scores@.len() == k,
            sc == all_scores(p0, rects@),
            forall|q: int| 0 <= q < k ==> #[trigger] scores@[q] == sc[q],
        decreases m - k,
    {
        scores.push(edge_conflict_score(k, paths, rects));
        k += 1;
    }
    let mut done: Vec<bool> = Vec::new();
    let mut k: usize = 0;
    while k < m
        invariant k <= m, done@.len() == k, forall|q: int| 0 <= q < k ==> !#[trigger] done@[q],
        decreases m - k,
    {
        done.push(false);
        k += 1;
    }
    proof { crate::plan::lemma_count_zero(done@, m as int); }
    let ghost mut v: Seq<usize> = Seq::empty();
    let ghost mut tr: Seq<Seq<EdgePath>> = seq![p0];
    let mut improved = false;
    loop
        invariant
            m == paths@.len(), m == edges@.len(), plans@.len() == m, plans_routable(plans@),
            scores@.len() == m, done@.len() == m, sc.len() == m,
            forall|q: int| 0 <= q < m ==> #[trigger] scores@[q] == sc[q],
            layout_ok(paths@, edges@, rects@),
            crate::plan::count_true(done@, m as int) == v.len(),
            forall|k: int| 0 <= k < v.len() ==> (#[trigger] v[k]) < m && sc[v[k] as int] > 0 && done@[v[k] as int],
            forall|q: int| 0 <= q < m && done@[q] ==> exists|k: int| 0 <= k < v.len() && #[trigger] v[k] == q,
            forall|a: int, b: int| 0 <= a < b < v.len() ==>
                rank_before(sc[#[trigger] v[a] as int], v[a] as int, sc[#[trigger] v[b] as int], v[b] as int),
            forall|k: int, q: int| #![trigger v[k], done@[q]] 0 <= k < v.len() && 0 <= q < m && !done@[q] && sc[q] > 0 ==>
                rank_before(sc[v[k] as int], v[k] as int, sc[q], q),
            pass_trace(tr, v, rects@, edges@, plans@, Accept::Lower),
            tr[0] == p0, tr[v.len() as int] == paths@,
            improved <==> exists|k: int| 0 <= k < v.len() && #[trigger] step_kept(tr[k], v[k] as int, rects@, edges@, plans@, Accept::Lower),
            !improved ==> paths@ == p0,
        ensures
            ranked(sc, v),
        decreases m - v.len(),
    {
        let best = pick_next(&scores, &done);
        if best == m {
            proof {
                assert(ranked(sc, v)) by {
                    assert forall|r: int| 0 <= r < sc.len() && sc[r] > 0 implies exists|k: int| 0 <= k < v.len() && #[trigger] v[k] == r by {
                        assert(done@[r]);
                    }
                }
            }
            break;
        }
        proof {
            crate::plan::lemma_count_set(done@, best as int, m as int);
            crate::plan::lemma_count_le(done@.update(best as int, true), m as int);
        }
        let ghost before = paths@;
        let ghost old_done = done@;
        done.set(best, true);
        let pl = &plans[best];
        proof { assert(plan_routable(plans@[best as int])); }
        let kept = try_route(paths, best, rects, edges, pl, pl.force_center, pl.sx_override, pl.tx_override,
            pl.src_side, pl.dst_side, Accept::Lower, false);
        let ghost was_improved = improved;
        if kept {
            improved = true;
        }
        proof {
            lemma_pass_extend(v, tr, best, before, paths@, kept, was_improved, sc, old_done, done@, m as int, p0,
                rects@, edges@, plans@);
            v = v.push(best);
            tr = tr.push(paths@);
        }
    }
    proof {
        assert(tr[v.len() as int] == paths@);
    }
    improved
}

/// What one improvement pass does (`improve_pass`): `b` is `a` after the
/// pass, which kept some new route exactly when `improved`.
#[verifier::opaque]
pub open spec fn improve_rel(a: Seq<EdgePath>, b: Seq<EdgePath>, improved: bool, rects: Seq<Rect>, es: Seq<RenderEdge>, pls: Seq<EdgePlan>) -> bool {
    exists|v: Seq<usize>, tr: Seq<Seq<EdgePath>>| {
        &&& ranked(all_scores(a, rects), v)
        &&& pass_trace(tr, v, rects, es, pls, Accept::Lower)
        &&& tr[0] == a && tr[v.len() as int] == b
        &&& (improved <==> exists|k: int| 0 <= k < v.len() && #[trigger] step_kept(tr[k], v[k] as int, rects, es, pls, Accept::Lower))
    }
}

/// Improvement passes (`improve_pass`), at most six, stopping after the
/// first that keeps no new route.
#[verifier::spinoff_prover]
pub fn improve_routes(paths: &mut Vec<EdgePath>, rects: &[Rect], edges: &[RenderEdge], plans: &[EdgePlan])
    requires
        layout_ok(old(paths)@, edges@, rects@),
        plans@.len() == edges@.len(),
        plans_routable(plans@),
    ensures
        layout_ok(final(paths)@, edges@, rects@),
        exists|ls: Seq<Seq<EdgePath>>, flags: Seq<bool>| {
            &&& ls.len() == flags.len() + 1 && 1 <= flags.len() <= 6
            &&& ls[0] == old(paths)@ && ls[flags.len() as int] == final(paths)@
            &&& forall|k: int| 0 <= k < flags.len() ==> improve_rel(#[trigger] ls[k], ls[k + 1], flags[k], rects@, edges@, plans@)
            &&& forall|k: int| 0 <= k < flags.len() - 1 ==> #[trigger] flags[k]
            &&& (flags.len() == 6 || !flags[flags.len() - 1])
        },
{
    let ghost mut ls: Seq<Seq<EdgePath>> = seq![paths@];
    let ghost mut flags: Seq<bool> = Seq::empty();
    let ghost p0 = paths@;
    let mut pass: usize = 0;
    loop
        invariant_except_break
            forall|k: int| 0 <= k < flags.len() ==> #[trigger] flags[k],
            pass < 6,
        invariant
            flags.len() == pass,
            layout_ok(paths@, edges@, rects@), plans@.len() == edges@.len(), plans_routable(plans@),
            ls.len() == flags.len() + 1, ls[0] == p0, ls[flags.len() as int] == paths@,
            forall|k: int| 0 <= k < flags.len() ==> improve_rel(#[trigger] ls[k], ls[k + 1], flags[k], rects@, edges@, plans@),
        ensures
            layout_ok(paths@, edges@, rects@),
            ls.len() == flags.len() + 1 && 1 <= flags.len() <= 6,
            ls[0] == p0 && ls[flags.len() as int] == paths@,
            forall|k: int| 0 <= k < flags.len() ==> improve_rel(#[trigger] ls[k], ls[k + 1], flags[k], rects@, edges@, plans@),
            forall|k: int| 0 <= k < flags.len() - 1 ==> #[trigger] flags[k],
            flags.len() == 6 || !flags[flags.len() - 1],
        decreases 6 - pass,
    {
        let ghost before = paths@;
        let improved = improve_pass(paths, rects, edges, plans);
        proof {
            let ghost l0 = ls;
            let ghost f0 = flags;
            ls = ls.push(paths@);
            flags = flags.push(improved);
            assert(improve_rel(before, paths@, improved, rects@, edges@, plans@)) by { reveal(improve_rel); }
            assert forall|k: int| 0 <= k < flags.len() implies improve_rel(#[trigger] ls[k], ls[k + 1], flags[k], rects@, edges@, plans@) by {
                if k < f0.len() {
                    assert(ls[k] == l0[k] && ls[k + 1] == l0[k + 1] && flags[k] == f0[k]);
                } else {
                    assert(ls[k] == before && ls[k + 1] == paths@ && flags[k] == improved);
                }
            }
        }
        pass += 1;
        if !improved || pass == 6 {
            break;
        }
    }
}

#[verifier::spinoff_prover]
fn plan_with_ends(pl: &EdgePlan, sx: Pt, ss: Side, tx: Pt, ds: Side) -> (r: EdgePlan)
    ensures
        r.out_idx == pl.out_idx && r.out_count == pl.out_count && r.src_split_y == pl.src_split_y,
        r.force_center == pl.force_center && r.prefer_side == pl.prefer_side,
        r.src_port_variants@ == pl.src_port_variants@ && r.dst_port_variants@ == pl.dst_port_variants@,
        r.side_lane_x == pl.side_lane_x && r.bounds == pl.bounds,
        r.sx_override == sx && r.src_side == ss && r.tx_override == tx && r.dst_side == ds,
{
    EdgePlan {
        out_idx: pl.out_idx,
        out_count: pl.out_count,
        src_split_y: pl.src_split_y,
        force_center: pl.force_center,
        prefer_side: pl.prefer_side,
        sx_override: sx,
        tx_override: tx,
        src_side: ss,
        dst_side: ds,
        src_port_variants: crate::path::copy_path(&pl.src_port_variants),
        dst_port_variants: crate::path::copy_path(&pl.dst_port_variants),
        side_lane_x: pl.side_lane_x,
        bounds: pl.bounds,
    }
}

pub open spec fn hits_node(ps: Seq<EdgePath>, j: int, d: int, outgoing: bool) -> bool {
    if outgoing { ps[j].from == d } else { ps[j].to == d }
}

/// The only edge into node `d` (with `outgoing`, out of it), if exactly one.
pub open spec fn sole(ps: Seq<EdgePath>, d: int, outgoing: bool) -> Option<int> {
    if exists|i: int| 0 <= i < ps.len() && hits_node(ps, i, d, outgoing)
        && forall|j: int| 0 <= j < ps.len() && j != i ==> !#[trigger] hits_node(ps, j, d, outgoing) {
        Some(choose|i: int| 0 <= i < ps.len() && hits_node(ps, i, d, outgoing)
            && forall|j: int| 0 <= j < ps.len() && j != i ==> !#[trigger] hits_node(ps, j, d, outgoing))
    } else {
        None
    }
}

#[verifier::spinoff_prover]
#[verifier::rlimit(40)]
fn sole_edge(paths: &Vec<EdgePath>, d: usize, outgoing: bool) -> (r: Option<usize>)
    ensures
        match r { Some(i) => sole(paths@, d as int, outgoing) == Some(i as int), None => sole(paths@, d as int, outgoing) is None },
{
    let ghost ps = paths@;
    let mut found: Option<usize> = None;
    let mut j: usize = 0;
    while j < paths.len()
        invariant
            j <= ps.len(), ps == paths@,
            found matches Some(i) ==> i < j && hits_node(ps, i as int, d as int, outgoing)
                && forall|q: int| 0 <= q < j && q != i ==> !#[trigger] hits_node(ps, q, d as int, outgoing),
            found is None ==> forall|q: int| 0 <= q < j ==> !#[trigger] hits_node(ps, q, d as int, outgoing),
        decreases ps.len() - j,
    {
        let hit = if outgoing { paths[j].from == d } else { paths[j].to == d };
        if hit {
            if found.is_some() {
                proof {
                    let i = found->0;
                    if exists|x: int| 0 <= x < ps.len() && hits_node(ps, x, d as int, outgoing)
                        && forall|y: int| 0 <= y < ps.len() && y != x ==> !#[trigger] hits_node(ps, y, d as int, outgoing) {
                        let x = choose|x: int| 0 <= x < ps.len() && hits_node(ps, x, d as int, outgoing)
                            && forall|y: int| 0 <= y < ps.len() && y != x ==> !#[trigger] hits_node(ps, y, d as int, outgoing);
                        if x == i {
                            assert(!hits_node(ps, j as int, d as int, outgoing));
                        } else {
                            assert(!hits_node(ps, i as int, d as int, outgoing));
                        }
                    }
                }
                return None;
            }
            found = Some(j);
        }
        j += 1;
    }
    proof {
        match found {
            Some(i) => {
                let x = choose|x: int| 0 <= x < ps.len() && hits_node(ps, x, d as int, outgoing)
                    && forall|y: int| 0 <= y < ps.len() && y != x ==> !#[trigger] hits_node(ps, y, d as int, outgoing);
                if x != i {
                    assert(!hits_node(ps, i as int, d as int, outgoing));
                }
            },
            None => {
                if exists|x: int| 0 <= x < ps.len() && hits_node(ps, x, d as int, outgoing)
                    && forall|y: int| 0 <= y < ps.len() && y != x ==> !#[trigger] hits_node(ps, y, d as int, outgoing) {
                    let x = choose|x: int| 0 <= x < ps.len() && hits_node(ps, x, d as int, outgoing)
                        && forall|y: int| 0 <= y < ps.len() && y != x ==> !#[trigger] hits_node(ps, y, d as int, outgoing);
                    assert(!hits_node(ps, x, d as int, outgoing));
                }
            },
        }
    }
    found
}

/// `b` is `a` with plan `i`'s ports set to `sx` (side `ss`) and `tx`
/// (side `ds`).
pub open spec fn plans_with(a: Seq<EdgePlan>, b: Seq<EdgePlan>, i: int, sx: Pt, ss: Side, tx: Pt, ds: Side) -> bool {
    &&& a.len() == b.len()
    &&& forall|j: int| 0 <= j < a.len() && j != i ==> #[trigger] b[j] == a[j]
    &&& b[i].out_idx == a[i].out_idx && b[i].out_count == a[i].out_count && b[i].src_split_y == a[i].src_split_y
    &&& b[i].force_center == a[i].force_center && b[i].prefer_side == a[i].prefer_side
    &&& b[i].src_port_variants@ == a[i].src_port_variants@ && b[i].dst_port_variants@ == a[i].dst_port_variants@
    &&& b[i].side_lane_x == a[i].side_lane_x && b[i].bounds == a[i].bounds
    &&& b[i].sx_override == sx && b[i].src_side == ss && b[i].tx_override == tx && b[i].dst_side == ds
}

pub open spec fn top_center(r: Rect) -> Pt {
    (tdiv(r.0 + r.2, 2) as i32, r.1)
}

pub open spec fn bottom_center(r: Rect) -> Pt {
    (tdiv(r.0 + r.2, 2) as i32, r.3)
}

/// One step of straightening at node `d`: when exactly one edge enters it
/// (with `outgoing`, leaves it) and does not already end (start) at the
/// node's top (bottom) centre, that edge is routed to (from) there, and the
/// new route and its port are kept when it enters validly and does not
/// raise the edge's conflict score; otherwise nothing changes.
pub open spec fn straighten_step(
    ps: Seq<EdgePath>, pls: Seq<EdgePlan>, ps2: Seq<EdgePath>, pls2: Seq<EdgePlan>, d: int, outgoing: bool,
    rects: Seq<Rect>, es: Seq<RenderEdge>,
) -> bool {
    match sole(ps, d, outgoing) {
        None => ps2 == ps && pls2 == pls,
        Some(i) => {
            let p = ps[i].path@;
            let pl = pls[i];
            let r = rects[d];
            if !outgoing {
                let top = top_center(r);
                if p.len() > 0 && p.last() == top {
                    ps2 == ps && pls2 == pls
                } else {
                    let cand = spec_reroute(rects, ps, i, pl, true, pl.sx_override, top, pl.src_side, Side::Top);
                    if route_kept(ps, i, rects, es, cand, Accept::NotHigher, true) {
                        path_replaced(ps, ps2, i, cand) && plans_with(pls, pls2, i, pl.sx_override, pl.src_side, top, Side::Top)
                    } else {
                        ps2 == ps && pls2 == pls
                    }
                }
            } else {
                let bottom = bottom_center(r);
                if p.len() > 0 && p[0] == bottom {
                    ps2 == ps && pls2 == pls
                } else {
                    let cand = spec_reroute(rects, ps, i, pl, pl.force_center, bottom, pl.tx_override, Side::Bottom, pl.dst_side);
                    if route_kept(ps, i, rects, es, cand, Accept::NotHigher, true) {
                        path_replaced(ps, ps2, i, cand) && plans_with(pls, pls2, i, bottom, Side::Bottom, pl.tx_override, pl.dst_side)
                    } else {
                        ps2 == ps && pls2 == pls
                    }
                }
            }
        },
    }
}

#[verifier::spinoff_prover]
fn straighten_at(paths: &mut Vec<EdgePath>, rects: &[Rect], edges: &[RenderEdge], plans: &mut Vec<EdgePlan>, d: usize, outgoing: bool)
    requires
        layout_ok(old(paths)@, edges@, rects@),
        old(plans)@.len() == edges@.len(),
        plans_routable(old(plans)@),
        crate::layout::small_rects(rects@),
        d < rects@.len(),
    ensures
        layout_ok(final(paths)@, edges@, rects@),
        final(plans)@.len() == edges@.len(),
        plans_routable(final(plans)@),
        straighten_step(old(paths)@, old(plans)@, final(paths)@, final(plans)@, d as int, outgoing, rects@, edges@),
{
    let r = rects[d];
    proof { assert(crate::layout::small_rect(rects@[d as int])); }
    if let Some(i) = sole_edge(paths, d, outgoing) {
        let plen = paths[i].path.len();
        let end_pt: Pt = if !outgoing { ((r.0 + r.2) / 2, r.1) } else { ((r.0 + r.2) / 2, r.3) };
        let mut already = false;
        if plen > 0 {
            let q = if !outgoing { paths[i].path[plen - 1] } else { paths[i].path[0] };
            already = q.0 == end_pt.0 && q.1 == end_pt.1;
        }
        if !already {
            proof { assert(plan_routable(plans@[i as int])); }
            let pl = &plans[i];
            let kept = if !outgoing {
                try_route(paths, i, rects, edges, pl, true, pl.sx_override, end_pt, pl.src_side, Side::Top,
                    Accept::NotHigher, true)
            } else {
                try_route(paths, i, rects, edges, pl, pl.force_center, end_pt, pl.tx_override, Side::Bottom,
                    pl.dst_side, Accept::NotHigher, true)
            };
            if kept {
                let np = if !outgoing {
                    plan_with_ends(&plans[i], plans[i].sx_override, plans[i].src_side, end_pt, Side::Top)
                } else {
                    plan_with_ends(&plans[i], end_pt, Side::Bottom, plans[i].tx_override, plans[i].dst_side)
                };
                plans.set(i, np);
                proof {
                    assert forall|k: int| 0 <= k < plans@.len() implies plan_routable(#[trigger] plans@[k]) by {}
                }
            }
        }
    }
}

/// Step `k` of straightening `n` nodes: the entries of node `k`, then
/// (from `k == n` on) the exits of node `k - n`.
pub open spec fn phase_step(tp: Seq<Seq<EdgePath>>, tq: Seq<Seq<EdgePlan>>, k: int, n: int, rects: Seq<Rect>, es: Seq<RenderEdge>) -> bool {
    straighten_step(tp[k], tq[k], tp[k + 1], tq[k + 1], if k < n { k } else { k - n }, k >= n, rects, es)
}

pub open spec fn straighten_trace(tp: Seq<Seq<EdgePath>>, tq: Seq<Seq<EdgePlan>>, n: int, rects: Seq<Rect>, es: Seq<RenderEdge>) -> bool {
    forall|k: int| 0 <= k < 2 * n ==> #[trigger] phase_step(tp, tq, k, n, rects, es)
}

/// For each node in turn that exactly one edge enters, moves that edge's
/// end to the top centre of the node when the new route enters validly and
/// does not raise its conflict score; then, for each node in turn that
/// exactly one edge leaves, moves that edge's start to the bottom centre
/// on the same terms (`straighten_step`). The plans record the ports kept.
#[verifier::spinoff_prover]
pub fn straighten_single_ends(paths: &mut Vec<EdgePath>, rects: &[Rect], edges: &[RenderEdge], plans: &mut Vec<EdgePlan>)
    requires
        layout_ok(old(paths)@, edges@, rects@),
        old(plans)@.len() == edges@.len(),
        plans_routable(old(plans)@),
        crate::layout::small_rects(rects@),
    ensures
        layout_ok(final(paths)@, edges@, rects@),
        final(plans)@.len() == edges@.len(),
        plans_routable(final(plans)@),
        exists|tp: Seq<Seq<EdgePath>>, tq: Seq<Seq<EdgePlan>>| {
            &&& #[trigger] straighten_trace(tp, tq, rects@.len() as int, rects@, edges@)
            &&& tp.len() == 2 * rects@.len() + 1 && tq.len() == 2 * rects@.len() + 1
            &&& tp[0] == old(paths)@ && tq[0] == old(plans)@
            &&& tp[2 * rects@.len() as int] == final(paths)@ && tq[2 * rects@.len() as int] == final(plans)@
        },
{
    let n = rects.len();
    let ghost mut tp: Seq<Seq<EdgePath>> = seq![paths@];
    let ghost mut tq: Seq<Seq<EdgePlan>> = seq![plans@];
    let mut k: usize = 0;
    while k < 2 * n
        invariant
            k <= 2 * n, n == rects@.len(), n <= 0x10_0000,
            layout_ok(paths@, edges@, rects@), plans@.len() == edges@.len(), plans_routable(plans@),
            crate::layout::small_rects(rects@),
            tp.len() == k + 1 && tq.len() == k + 1,
            tp[0] == old(paths)@ && tq[0] == old(plans)@,
            tp[k as int] == paths@ && tq[k as int] == plans@,
            forall|q: int| 0 <= q < k ==> #[trigger] phase_step(tp, tq, q, n as int, rects@, edges@),
        decreases 2 * n - k,
    {
        let d = if k < n { k } else { k - n };
        let ghost bp = paths@;
        let ghost bq = plans@;
        straighten_at(paths, rects, edges, plans, d, k >= n);
        proof {
            let ghost tp0 = tp;
            let ghost tq0 = tq;
            tp = tp.push(paths@);
            tq = tq.push(plans@);
            assert forall|q: int| 0 <= q < k + 1 implies #[trigger] phase_step(tp, tq, q, n as int, rects@, edges@) by {
                if q < k {
                    assert(tp[q] == tp0[q] && tp[q + 1] == tp0[q + 1] && tq[q] == tq0[q] && tq[q + 1] == tq0[q + 1]);
                    assert(phase_step(tp0, tq0, q, n as int, rects@, edges@));
                } else {
                    assert(tp[q] == bp && tq[q] == bq && tp[q + 1] == paths@ && tq[q + 1] == plans@);
                }
            }
        }
        k += 1;
    }
    proof {
        assert(straighten_trace(tp, tq, n as int, rects@, edges@));
    }
}

/// Whether the list holds an edge other than `i`.
pub open spec fn has_other(l: Seq<usize>, i: usize) -> bool {
    exists|q: int| 0 <= q < l.len() && l[q] != i
}

/// The input ports of node `dst` entered by some edge other than `i`,
/// among the first `g` port groups.
pub open spec fn used_by_others(u: Seq<((usize, Pt), Seq<usize>)>, dst: usize, i: usize, g: int) -> Seq<Pt>
    decreases g,
{
    if g <= 0 {
        Seq::empty()
    } else {
        let prev = used_by_others(u, dst, i, g - 1);
        if u[g - 1].0.0 == dst && has_other(u[g - 1].1, i) { prev.push(u[g - 1].0.1) } else { prev }
    }
}

pub open spec fn spec_used_ports(ps: Seq<EdgePath>, dst: usize, i: usize) -> Seq<Pt> {
    let u = spec_port_usage(ps, ps.len() as int);
    used_by_others(u, dst, i, u.len() as int)
}

#[verifier::spinoff_prover]
fn ports_used_by_others(paths: &Vec<EdgePath>, dst: usize, i: usize) -> (r: Vec<Pt>)
    requires paths@.len() <= usize::MAX,
    ensures r@ == spec_used_ports(paths@, dst, i),
{
    let usage = input_port_usage(paths);
    let ghost u = spec_port_usage(paths@, paths@.len() as int);
    let mut out: Vec<Pt> = Vec::new();
    let mut g: usize = 0;
    while g < usage.len()
        invariant
            g <= usage@.len(), usage_view(usage@) == u,
            out@ == used_by_others(u, dst, i, g as int),
        decreases usage@.len() - g,
    {
        let key = usage[g].0;
        let list = &usage[g].1;
        proof { assert(u[g as int] == (key, list@)); }
        if key.0 == dst {
            let mut other = false;
            let mut q: usize = 0;
            while q < list.len()
                invariant q <= list@.len(), other == exists|x: int| 0 <= x < q && list@[x] != i,
                decreases list@.len() - q,
            {
                if list[q] != i {
                    other = true;
                }
                q += 1;
            }
            if other {
                out.push(key.1);
            }
        }
        g += 1;
    }
    out
}

/// How far candidate `t` of the target ports lies from the source's x.
pub open spec fn cand_key(v: Seq<Pt>, t: int, src_x: int) -> int {
    iabs(v[t].0 - src_x)
}

/// Candidate `a` is tried before candidate `b`: nearer first, then earlier.
pub open spec fn tried_before(v: Seq<Pt>, a: int, b: int, src_x: int) -> bool {
    cand_key(v, a, src_x) < cand_key(v, b, src_x) || (cand_key(v, a, src_x) == cand_key(v, b, src_x) && a < b)
}

/// The x the source end of edge `i` has (its path's start, else its plan's).
pub open spec fn start_x_of(ps: Seq<EdgePath>, pls: Seq<EdgePlan>, i: int) -> int {
    if ps[i].path@.len() > 0 { ps[i].path@[0].0 as int } else { pls[i].sx_override.0 as int }
}

/// The route of edge `i` into candidate port `tp`.
pub open spec fn free_port_route(ps: Seq<EdgePath>, pls: Seq<EdgePlan>, i: int, tp: Pt, rects: Seq<Rect>, es: Seq<RenderEdge>) -> Seq<Pt> {
    let pl = pls[i];
    let ds = spec_port_side(rects[es[i].to as int], tp);
    spec_reroute(rects, ps, i, pl, ds == Side::Top, pl.sx_override, tp, pl.src_side, ds)
}

/// Candidate `t` of edge `i` is free and its route would be kept.
pub open spec fn free_port_ok(ps: Seq<EdgePath>, pls: Seq<EdgePlan>, i: int, t: int, rects: Seq<Rect>, es: Seq<RenderEdge>) -> bool {
    let v = pls[i].dst_port_variants@;
    &&& !spec_used_ports(ps, es[i].to, i as usize).contains(v[t])
    &&& route_kept(ps, i, rects, es, free_port_route(ps, pls, i, v[t], rects, es), Accept::NotHigher, true)
}

/// Moving edge `i` to a free port of its target: the first candidate (by
/// `tried_before`) that no other edge enters and whose route is kept, if
/// any, becomes the edge's port and route.
pub open spec fn free_port_step(
    ps: Seq<EdgePath>, pls: Seq<EdgePlan>, ps2: Seq<EdgePath>, pls2: Seq<EdgePlan>, i: int, changed: bool,
    rects: Seq<Rect>, es: Seq<RenderEdge>,
) -> bool {
    let v = pls[i].dst_port_variants@;
    let sx = start_x_of(ps, pls, i);
    if changed {
        exists|t: int| 0 <= t < v.len() && #[trigger] free_port_ok(ps, pls, i, t, rects, es)
            && (forall|o: int| 0 <= o < v.len() && tried_before(v, o, t, sx) ==> !#[trigger] free_port_ok(ps, pls, i, o, rects, es))
            && path_replaced(ps, ps2, i, free_port_route(ps, pls, i, v[t], rects, es))
            && plans_with(pls, pls2, i, pls[i].sx_override, pls[i].src_side, v[t], spec_port_side(rects[es[i].to as int], v[t]))
    } else {
        (forall|t: int| 0 <= t < v.len() ==> !#[trigger] free_port_ok(ps, pls, i, t, rects, es))
            && ps2 == ps && pls2 == pls
    }
}


proof fn lemma_free_kept(
    p0: Seq<EdgePath>, q0: Seq<EdgePlan>, ps2: Seq<EdgePath>, pls2: Seq<EdgePlan>, i: int, best: int, vv: Seq<Pt>,
    sx: int, tried: Seq<bool>, nv: int, rects: Seq<Rect>, es: Seq<RenderEdge>,
)
    requires
        0 <= i < q0.len(), vv == q0[i].dst_port_variants@, sx == start_x_of(p0, q0, i),
        0 <= best < nv, nv == vv.len(), tried.len() == nv, !tried[best],
        free_port_ok(p0, q0, i, best, rects, es),
        forall|r: int| 0 <= r < nv && #[trigger] tried[r] ==> !free_port_ok(p0, q0, i, r, rects, es),
        forall|o: int| 0 <= o < nv && !tried[o] && o != best ==> #[trigger] tried_before(vv, best, o, sx),
        path_replaced(p0, ps2, i, free_port_route(p0, q0, i, vv[best], rects, es)),
        plans_with(q0, pls2, i, q0[i].sx_override, q0[i].src_side, vv[best], spec_port_side(rects[es[i].to as int], vv[best])),
    ensures
        free_port_step(p0, q0, ps2, pls2, i, true, rects, es),
{
    assert forall|o: int| 0 <= o < vv.len() && tried_before(vv, o, best, sx) implies
        !#[trigger] free_port_ok(p0, q0, i, o, rects, es) by {
        if !tried[o] {
            if o != best {
                assert(tried_before(vv, best, o, sx));
            }
        }
    }
}

/// Tries the free target ports of edge `i` (`free_port_step`).
#[verifier::spinoff_prover]
#[verifier::rlimit(40)]
fn reroute_to_free_port(
    paths: &mut Vec<EdgePath>, i: usize, rects: &[Rect], edges: &[RenderEdge], plans: &mut Vec<EdgePlan>,
) -> (changed: bool)
    requires
        layout_ok(old(paths)@, edges@, rects@),
        i < old(paths)@.len(),
        old(plans)@.len() == edges@.len(),
        plans_routable(old(plans)@),
    ensures
        layout_ok(final(paths)@, edges@, rects@),
        final(plans)@.len() == edges@.len(),
        plans_routable(final(plans)@),
        free_port_step(old(paths)@, old(plans)@, final(paths)@, final(plans)@, i as int, changed, rects@, edges@),
{
    let ghost p0 = paths@;
    let ghost q0 = plans@;
    let dst = edges[i].to;
    proof {
        assert(plan_routable(plans@[i as int]));
        assert(dst < rects@.len());
        assert(path_ok(paths@[i as int].path@));
        if paths@[i as int].path@.len() > 0 { assert(pt_ok(paths@[i as int].path@[0])); }
    }
    let src_x: i64 = if paths[i].path.len() > 0 { paths[i].path[0].0 as i64 } else { plans[i].sx_override.0 as i64 };
    assert(src_x == start_x_of(p0, q0, i as int));
    let _len = paths.len();
    let used = ports_used_by_others(paths, dst, i);
    let ghost vv = plans@[i as int].dst_port_variants@;
    let nv = plans[i].dst_port_variants.len();
    let mut tried: Vec<bool> = Vec::new();
    let mut q: usize = 0;
    while q < nv
        invariant q <= nv, tried@.len() == q, forall|r: int| 0 <= r < q ==> !#[trigger] tried@[r],
        decreases nv - q,
    {
        tried.push(false);
        q += 1;
    }
    proof { crate::plan::lemma_count_zero(tried@, nv as int); }
    let mut step: usize = 0;
    loop
        invariant
            step <= nv, tried@.len() == nv, i < plans@.len(), nv == vv.len(), vv == plans@[i as int].dst_port_variants@,
            i < paths@.len(), layout_ok(paths@, edges@, rects@), paths@ == p0, plans@ == q0, dst == edges@[i as int].to,
            p0 == old(paths)@, q0 == old(plans)@,
            dst < rects@.len(), plans@.len() == edges@.len(), plans_routable(plans@),
            -0x10_0000 <= src_x <= 0x10_0000, src_x == start_x_of(p0, q0, i as int),
            used@ == spec_used_ports(p0, dst, i),
            crate::plan::count_true(tried@, nv as int) == step,
            forall|r: int| 0 <= r < nv && #[trigger] tried@[r] ==> !free_port_ok(p0, q0, i as int, r, rects@, edges@),
            forall|r: int, o: int| 0 <= r < nv && 0 <= o < nv && tried@[r] && !tried@[o] ==>
                #[trigger] tried_before(vv, r, o, src_x as int) || r == o,
        ensures
            forall|r: int| 0 <= r < nv ==> #[trigger] tried@[r],
        decreases nv - step,
    {
        if step >= nv {
            proof { crate::plan::lemma_count_full(tried@, nv as int); }
            break;
        }
        let mut best: usize = nv;
        let mut best_key: i64 = 0;
        let mut q: usize = 0;
        while q < nv
            invariant
                q <= nv, tried@.len() == nv, i < plans@.len(), nv == vv.len(), vv == plans@[i as int].dst_port_variants@,
                best <= nv, plan_routable(plans@[i as int]), -0x10_0000 <= src_x <= 0x10_0000,
                best == nv ==> forall|r: int| 0 <= r < q ==> tried@[r],
                best < nv ==> best < q && !tried@[best as int] && best_key == cand_key(vv, best as int, src_x as int)
                    && forall|r: int| 0 <= r < q && !tried@[r] && r != best ==> tried_before(vv, best as int, r, src_x as int),
            decreases nv - q,
        {
            if !tried[q] {
                proof { assert(small_pt(vv[q as int])); }
                let d = (plans[i].dst_port_variants[q].0 as i64) - src_x;
                let key = if d < 0 { -d } else { d };
                if best == nv || key < best_key {
                    best = q;
                    best_key = key;
                }
            }
            q += 1;
        }
        if best == nv {
            break;
        }
        proof {
            crate::plan::lemma_count_set(tried@, best as int, nv as int);
            crate::plan::lemma_count_le(tried@.update(best as int, true), nv as int);
        }
        let ghost old_tried = tried@;
        tried.set(best, true);
        let tp = plans[i].dst_port_variants[best];
        proof { assert(small_pt(vv[best as int])); }
        if !crate::path::pt_in(&used, tp) {
            let ds = port_side_from_point(rects[dst], tp);
            let force = match ds { Side::Top => true, _ => false };
            let pl = &plans[i];
            let kept = try_route(paths, i, rects, edges, pl, force, pl.sx_override, tp, pl.src_side, ds,
                Accept::NotHigher, true);
            if kept {
                let np = plan_with_ends(&plans[i], plans[i].sx_override, plans[i].src_side, tp, ds);
                plans.set(i, np);
                proof {
                    assert forall|k: int| 0 <= k < plans@.len() implies plan_routable(#[trigger] plans@[k]) by {}
                    lemma_free_kept(p0, q0, paths@, plans@, i as int, best as int, vv, src_x as int, old_tried, nv as int,
                        rects@, edges@);
                }
                return true;
            }
        }
        proof {
            assert(!free_port_ok(p0, q0, i as int, best as int, rects@, edges@));
            assert forall|r: int, o: int| 0 <= r < nv && 0 <= o < nv && tried@[r] && !tried@[o] implies
                #[trigger] tried_before(vv, r, o, src_x as int) || r == o by {
                if r == best {
                } else {
                    assert(old_tried[r]);
                }
            }
        }
        step += 1;
    }
    proof {
        assert forall|t: int| 0 <= t < vv.len() implies !#[trigger] free_port_ok(p0, q0, i as int, t, rects@, edges@) by {
            assert(tried@[t]);
        }
    }
    false
}

/// A run of free-port steps (`free_port_step`) over the edges `v` in turn
/// leads from `(ps, pls)` to `(ps2, pls2)`; `changed` when some step moved
/// an edge.
#[verifier::opaque]
pub open spec fn steps_rel(
    ps: Seq<EdgePath>, pls: Seq<EdgePlan>, ps2: Seq<EdgePath>, pls2: Seq<EdgePlan>, v: Seq<usize>, changed: bool,
    rects: Seq<Rect>, es: Seq<RenderEdge>,
) -> bool {
    exists|tp: Seq<Seq<EdgePath>>, tq: Seq<Seq<EdgePlan>>, cf: Seq<bool>| {
        &&& #[trigger] free_trace(tp, tq, cf, v, rects, es)
        &&& tp.len() == v.len() + 1 && tq.len() == v.len() + 1 && cf.len() == v.len()
        &&& tp[0] == ps && tq[0] == pls && tp[v.len() as int] == ps2 && tq[v.len() as int] == pls2
        &&& (changed <==> exists|k: int| 0 <= k < cf.len() && #[trigger] cf[k])
    }
}

pub open spec fn free_trace(tp: Seq<Seq<EdgePath>>, tq: Seq<Seq<EdgePlan>>, cf: Seq<bool>, v: Seq<usize>, rects: Seq<Rect>, es: Seq<RenderEdge>) -> bool {
    forall|k: int| 0 <= k < v.len() ==> #[trigger] free_port_step(tp[k], tq[k], tp[k + 1], tq[k + 1], v[k] as int, cf[k], rects, es)
}

proof fn lemma_steps_empty(ps: Seq<EdgePath>, pls: Seq<EdgePlan>, rects: Seq<Rect>, es: Seq<RenderEdge>)
    ensures steps_rel(ps, pls, ps, pls, Seq::empty(), false, rects, es),
{
    reveal(steps_rel);
    let tp = seq![ps];
    let tq = seq![pls];
    let cf: Seq<bool> = Seq::empty();
    assert(free_trace(tp, tq, cf, Seq::empty(), rects, es));
}

proof fn lemma_steps_push(
    ps: Seq<EdgePath>, pls: Seq<EdgePlan>, ps2: Seq<EdgePath>, pls2: Seq<EdgePlan>, ps3: Seq<EdgePath>, pls3: Seq<EdgePlan>,
    v: Seq<usize>, changed: bool, i: usize, c: bool, rects: Seq<Rect>, es: Seq<RenderEdge>,
)
    requires
        steps_rel(ps, pls, ps2, pls2, v, changed, rects, es),
        free_port_step(ps2, pls2, ps3, pls3, i as int, c, rects, es),
    ensures
        steps_rel(ps, pls, ps3, pls3, v.push(i), changed || c, rects, es),
{
    reveal(steps_rel);
    let (tp, tq, cf) = choose|tp: Seq<Seq<EdgePath>>, tq: Seq<Seq<EdgePlan>>, cf: Seq<bool>| {
        &&& #[trigger] free_trace(tp, tq, cf, v, rects, es)
        &&& tp.len() == v.len() + 1 && tq.len() == v.len() + 1 && cf.len() == v.len()
        &&& tp[0] == ps && tq[0] == pls && tp[v.len() as int] == ps2 && tq[v.len() as int] == pls2
        &&& (changed <==> exists|k: int| 0 <= k < cf.len() && #[trigger] cf[k])
    };
    let tp2 = tp.push(ps3);
    let tq2 = tq.push(pls3);
    let cf2 = cf.push(c);
    let v2 = v.push(i);
    assert forall|k: int| 0 <= k < v2.len() implies #[trigger] free_port_step(tp2[k], tq2[k], tp2[k + 1], tq2[k + 1], v2[k] as int, cf2[k], rects, es) by {
        if k < v.len() {
            assert(tp2[k] == tp[k] && tp2[k + 1] == tp[k + 1] && tq2[k] == tq[k] && tq2[k + 1] == tq[k + 1]);
            assert(v2[k] == v[k] && cf2[k] == cf[k]);
        } else {
            assert(tp2[k] == ps2 && tq2[k] == pls2 && tp2[k + 1] == ps3 && tq2[k + 1] == pls3 && v2[k] == i && cf2[k] == c);
        }
    }
    assert(free_trace(tp2, tq2, cf2, v2, rects, es));
    if changed || c {
        if c {
            assert(cf2[cf.len() as int]);
        } else {
            let k = choose|k: int| 0 <= k < cf.len() && #[trigger] cf[k];
            assert(cf2[k]);
        }
    } else {
        assert forall|k: int| 0 <= k < cf2.len() implies !#[trigger] cf2[k] by {
            if k < cf.len() { assert(cf2[k] == cf[k]); }
        }
    }
}

proof fn lemma_steps_skip(
    ps: Seq<EdgePath>, pls: Seq<EdgePlan>, ps2: Seq<EdgePath>, pls2: Seq<EdgePlan>, v: Seq<usize>, changed: bool,
    rects: Seq<Rect>, es: Seq<RenderEdge>,
)
    requires steps_rel(ps, pls, ps2, pls2, v, changed, rects, es),
    ensures steps_rel(ps, pls, ps2, pls2, v + Seq::<usize>::empty(), changed, rects, es),
{
    assert(v + Seq::<usize>::empty() =~= v);
}

/// The smallest of the first `q` entries of a nonempty list.
pub open spec fn min_upto(l: Seq<usize>, q: int) -> usize
    decreases q,
{
    if q <= 1 { l[0] } else if l[q - 1] < min_upto(l, q - 1) { l[q - 1] } else { min_upto(l, q - 1) }
}

/// The entries `l[q - 1]` down to `l[0]`, leaving out `keep` and indices
/// from `n` on.
pub open spec fn rev_visits(l: Seq<usize>, keep: usize, n: int, q: int) -> Seq<usize>
    decreases q,
{
    if q <= 0 {
        Seq::empty()
    } else {
        let x = l[q - 1];
        (if x != keep && x < n { seq![x] } else { Seq::empty() }) + rev_visits(l, keep, n, q - 1)
    }
}

/// The edges a round moves, group by group: in each port group holding
/// more than one edge, all but the lowest-numbered, from the end of the
/// group's list back.
pub open spec fn group_visits(u: Seq<((usize, Pt), Seq<usize>)>, n: int, g: int) -> Seq<usize>
    decreases g,
{
    if g <= 0 {
        Seq::empty()
    } else {
        let l = u[g - 1].1;
        group_visits(u, n, g - 1) + if l.len() > 1 { rev_visits(l, min_upto(l, l.len() as int), n, l.len() as int) } else { Seq::empty() }
    }
}

/// One round of resolving shared input ports.
pub open spec fn round_rel(
    ps: Seq<EdgePath>, pls: Seq<EdgePlan>, ps2: Seq<EdgePath>, pls2: Seq<EdgePlan>, changed: bool,
    rects: Seq<Rect>, es: Seq<RenderEdge>,
) -> bool {
    let u = spec_port_usage(ps, ps.len() as int);
    steps_rel(ps, pls, ps2, pls2, group_visits(u, ps.len() as int, u.len() as int), changed, rects, es)
}

#[verifier::spinoff_prover]
fn resolve_round(paths: &mut Vec<EdgePath>, rects: &[Rect], edges: &[RenderEdge], plans: &mut Vec<EdgePlan>) -> (changed: bool)
    requires
        layout_ok(old(paths)@, edges@, rects@),
        old(plans)@.len() == edges@.len(),
        plans_routable(old(plans)@),
    ensures
        layout_ok(final(paths)@, edges@, rects@),
        final(plans)@.len() == edges@.len(),
        plans_routable(final(plans)@),
        round_rel(old(paths)@, old(plans)@, final(paths)@, final(plans)@, changed, rects@, edges@),
{
    let ghost p0 = paths@;
    let ghost q0 = plans@;
    let n = paths.len();
    let usage = input_port_usage(paths);
    let ghost u = spec_port_usage(p0, n as int);
    let mut changed = false;
    proof { lemma_steps_empty(p0, q0, rects@, edges@); }
    let mut g: usize = 0;
    while g < usage.len()
        invariant
            g <= usage@.len(), usage_view(usage@) == u, n == paths@.len(), n == p0.len(),
            u == spec_port_usage(p0, p0.len() as int),
            layout_ok(paths@, edges@, rects@), plans@.len() == edges@.len(), plans_routable(plans@),
            steps_rel(p0, q0, paths@, plans@, group_visits(u, n as int, g as int), changed, rects@, edges@),
        decreases usage@.len() - g,
    {
        let list = &usage[g].1;
        proof { assert(u[g as int].1 == list@); }
        let ghost vis_before = group_visits(u, n as int, g as int);
        if list.len() > 1 {
            let mut keep: usize = list[0];
            let mut q: usize = 1;
            while q < list.len()
                invariant 1 <= q <= list@.len(), keep == min_upto(list@, q as int),
                decreases list@.len() - q,
            {
                if list[q] < keep {
                    keep = list[q];
                }
                q += 1;
            }
            let ghost full = rev_visits(list@, keep, n as int, list@.len() as int);
            let ghost mut done: Seq<usize> = Seq::empty();
            let mut q: usize = list.len();
            while q > 0
                invariant
                    q <= list@.len(), n == paths@.len(),
                    layout_ok(paths@, edges@, rects@), plans@.len() == edges@.len(), plans_routable(plans@),
                    done + rev_visits(list@, keep, n as int, q as int) == full,
                    steps_rel(p0, q0, paths@, plans@, vis_before + done, changed, rects@, edges@),
                decreases q,
            {
                q -= 1;
                let i = list[q];
                let ghost rest = rev_visits(list@, keep, n as int, q as int);
                if i != keep && i < paths.len() {
                    let ghost bp = paths@;
                    let ghost bq = plans@;
                    let c = reroute_to_free_port(paths, i, rects, edges, plans);
                    proof {
                        lemma_steps_push(p0, q0, bp, bq, paths@, plans@, vis_before + done, changed, i, c, rects@, edges@);
                        assert((vis_before + done).push(i) == vis_before + done.push(i));
                        assert(done.push(i) + rest == done + rev_visits(list@, keep, n as int, q + 1)) by {
                            assert(rev_visits(list@, keep, n as int, q + 1) == seq![i] + rest);
                        }
                        done = done.push(i);
                    }
                    if c {
                        changed = true;
                    }
                } else {
                    proof {
                        assert(rev_visits(list@, keep, n as int, q + 1) == rest) by {
                            assert(Seq::<usize>::empty() + rest == rest);
                        }
                    }
                }
            }
            proof {
                assert(done == full) by {
                    assert(rev_visits(list@, keep, n as int, 0) == Seq::<usize>::empty());
                    assert(done + Seq::<usize>::empty() == done);
                }
                assert(group_visits(u, n as int, g + 1) == vis_before + full);
            }
        } else {
            proof {
                assert(group_visits(u, n as int, g + 1) == vis_before + Seq::<usize>::empty());
                lemma_steps_skip(p0, q0, paths@, plans@, vis_before, changed, rects@, edges@);
            }
        }
        g += 1;
    }
    changed
}

/// Shared input ports resolved in rounds (`round_rel`), at most six,
/// stopping after the first round that moves nothing. In a round, each
/// input port that several edges enter (in the order `input_port_usage`
/// lists them, at the start of the round) has every edge but the
/// lowest-numbered, from the end of its list back, moved to a free port of
/// the same node (`free_port_step`).
#[verifier::spinoff_prover]
pub fn resolve_port_conflicts(paths: &mut Vec<EdgePath>, rects: &[Rect], edges: &[RenderEdge], plans: &mut Vec<EdgePlan>)
    requires
        layout_ok(old(paths)@, edges@, rects@),
        old(plans)@.len() == edges@.len(),
        plans_routable(old(plans)@),
    ensures
        layout_ok(final(paths)@, edges@, rects@),
        final(plans)@.len() == edges@.len(),
        plans_routable(final(plans)@),
        exists|lp: Seq<Seq<EdgePath>>, lq: Seq<Seq<EdgePlan>>, flags: Seq<bool>| {
            &&& #[trigger] rounds_trace(lp, lq, flags, rects@, edges@)
            &&& lp.len() == flags.len() + 1 && lq.len() == flags.len() + 1 && 1 <= flags.len() <= 6
            &&& lp[0] == old(paths)@ && lq[0] == old(plans)@
            &&& lp[flags.len() as int] == final(paths)@ && lq[flags.len() as int] == final(plans)@
            &&& forall|k: int| 0 <= k < flags.len() - 1 ==> #[trigger] flags[k]
            &&& (flags.len() == 6 || !flags[flags.len() - 1])
        },
{
    let ghost mut lp: Seq<Seq<EdgePath>> = seq![paths@];
    let ghost mut lq: Seq<Seq<EdgePlan>> = seq![plans@];
    let ghost mut flags: Seq<bool> = Seq::empty();
    let mut round: usize = 0;
    loop
        invariant_except_break
            forall|k: int| 0 <= k < flags.len() ==> #[trigger] flags[k],
            round < 6,
        invariant
            flags.len() == round,
            layout_ok(paths@, edges@, rects@), plans@.len() == edges@.len(), plans_routable(plans@),
            lp.len() == flags.len() + 1 && lq.len() == flags.len() + 1,
            lp[0] == old(paths)@ && lq[0] == old(plans)@,
            lp[flags.len() as int] == paths@ && lq[flags.len() as int] == plans@,
            rounds_trace(lp, lq, flags, rects@, edges@),
        ensures
            1 <= flags.len() <= 6,
            forall|k: int| 0 <= k < flags.len() - 1 ==> #[trigger] flags[k],
            flags.len() == 6 || !flags[flags.len() - 1],
        decreases 6 - round,
    {
        let ghost bp = paths@;
        let ghost bq = plans@;
        let changed = resolve_round(paths, rects, edges, plans);
        proof {
            let ghost lp0 = lp;
            let ghost lq0 = lq;
            let ghost f0 = flags;
            lp = lp.push(paths@);
            lq = lq.push(plans@);
            flags = flags.push(changed);
            assert forall|k: int| 0 <= k < flags.len() implies #[trigger] round_rel(lp[k], lq[k], lp[k + 1], lq[k + 1], flags[k], rects@, edges@) by {
                if k < f0.len() {
                    assert(lp[k] == lp0[k] && lp[k + 1] == lp0[k + 1] && lq[k] == lq0[k] && lq[k + 1] == lq0[k + 1] && flags[k] == f0[k]);
                    assert(round_rel(lp0[k], lq0[k], lp0[k + 1], lq0[k + 1], f0[k], rects@, edges@));
                } else {
                    assert(lp[k] == bp && lq[k] == bq && lp[k + 1] == paths@ && lq[k + 1] == plans@ && flags[k] == changed);
                }
            }
        }
        round += 1;
        if !changed || round == 6 {
            break;
        }
    }
}

pub open spec fn rounds_trace(lp: Seq<Seq<EdgePath>>, lq: Seq<Seq<EdgePlan>>, flags: Seq<bool>, rects: Seq<Rect>, es: Seq<RenderEdge>) -> bool {
    forall|k: int| 0 <= k < flags.len() ==> #[trigger] round_rel(lp[k], lq[k], lp[k + 1], lq[k + 1], flags[k], rects, es)
}

/// Whether two edges into the same node cross on the way in: the one whose
/// path starts further left enters at a port further right.
pub open spec fn ports_inverted(src_i: int, src_j: int, tx_i: int, tx_j: int) -> bool {
    (src_i < src_j && tx_i > tx_j) || (src_i > src_j && tx_i < tx_j)
}

#[verifier::spinoff_prover]
fn start_x(paths: &Vec<EdgePath>, i: usize, fallback: i32) -> (r: i32)
    requires i < paths@.len(),
    ensures r == (if paths@[i as int].path@.len() > 0 { paths@[i as int].path@[0].0 } else { fallback }),
{
    if paths[i].path.len() > 0 { paths[i].path[0].0 } else { fallback }
}

/// Swapping the target ports of edges `i` and `j` (into the same node):
/// when both enter on the same side and their ports are inverted, edge `i`
/// is routed to `j`'s port and then `j` to `i`'s; the swap is kept when
/// both new routes enter validly (and the layout stays within 0x1_0000
/// points), else nothing changes.
pub open spec fn swap_step(
    ps: Seq<EdgePath>, pls: Seq<EdgePlan>, ps2: Seq<EdgePath>, pls2: Seq<EdgePlan>, i: int, j: int, changed: bool,
    rects: Seq<Rect>, es: Seq<RenderEdge>,
) -> bool {
    let mi = pls[i];
    let mj = pls[j];
    let inverted = ports_inverted(start_x_of(ps, pls, i), start_x_of(ps, pls, j), mi.tx_override.0 as int, mj.tx_override.0 as int);
    let unchanged = !changed && ps2 == ps && pls2 == pls;
    if mi.dst_side != mj.dst_side || !inverted {
        unchanged
    } else {
        let cand_i = spec_reroute(rects, ps, i, mi, mj.dst_side == Side::Top, mi.sx_override, mj.tx_override, mi.src_side, mj.dst_side);
        if !route_kept(ps, i, rects, es, cand_i, Accept::Any, true) {
            unchanged
        } else {
            exists|mid: Seq<EdgePath>| #[trigger] path_replaced(ps, mid, i, cand_i) && {
                let cand_j = spec_reroute(rects, mid, j, mj, mi.dst_side == Side::Top, mj.sx_override, mi.tx_override,
                    mj.src_side, mi.dst_side);
                if route_kept(mid, j, rects, es, cand_j, Accept::Any, true) {
                    &&& changed && path_replaced(mid, ps2, j, cand_j)
                    &&& exists|pm: Seq<EdgePlan>| #[trigger] plans_with(pls, pm, i, mi.sx_override, mi.src_side, mj.tx_override, mj.dst_side)
                        && plans_with(pm, pls2, j, mj.sx_override, mj.src_side, mi.tx_override, mi.dst_side)
                } else {
                    unchanged
                }
            }
        }
    }
}

/// Swaps the target ports of edges `i` and `j` (`swap_step`).
#[verifier::spinoff_prover]
#[verifier::rlimit(40)]
fn try_swap(paths: &mut Vec<EdgePath>, i: usize, j: usize, rects: &[Rect], edges: &[RenderEdge], plans: &mut Vec<EdgePlan>)
    -> (changed: bool)
    requires
        layout_ok(old(paths)@, edges@, rects@),
        i < old(paths)@.len(), j < old(paths)@.len(), i != j,
        old(plans)@.len() == edges@.len(),
        plans_routable(old(plans)@),
    ensures
        layout_ok(final(paths)@, edges@, rects@),
        final(plans)@.len() == edges@.len(),
        plans_routable(final(plans)@),
        swap_step(old(paths)@, old(plans)@, final(paths)@, final(plans)@, i as int, j as int, changed, rects@, edges@),
{
    let ghost p0 = paths@;
    let ghost q0 = plans@;
    proof {
        assert(plan_routable(plans@[i as int]));
        assert(plan_routable(plans@[j as int]));
    }
    let mi = plan_with_ends(&plans[i], plans[i].sx_override, plans[i].src_side, plans[i].tx_override, plans[i].dst_side);
    let mj = plan_with_ends(&plans[j], plans[j].sx_override, plans[j].src_side, plans[j].tx_override, plans[j].dst_side);
    if mi.dst_side != mj.dst_side {
        return false;
    }
    let src_i = start_x(paths, i, mi.sx_override.0);
    let src_j = start_x(paths, j, mj.sx_override.0);
    let tx_i = mi.tx_override.0;
    let tx_j = mj.tx_override.0;
    let inverted = (src_i < src_j && tx_i > tx_j) || (src_i > src_j && tx_i < tx_j);
    if !inverted {
        return false;
    }
    let force_i = match mj.dst_side { Side::Top => true, _ => false };
    let saved = try_route_saving(paths, i, rects, edges, &mi, force_i, mi.sx_override, mj.tx_override, mi.src_side,
        mj.dst_side, Accept::Any, true);
    let old_i = match saved {
        None => {
            return false;
        },
        Some(e) => e,
    };
    let ghost mid = paths@;
    let force_j = match mi.dst_side { Side::Top => true, _ => false };
    let ok_j = try_route(paths, j, rects, edges, &mj, force_j, mj.sx_override, mi.tx_override, mj.src_side, mi.dst_side,
        Accept::Any, true);
    if !ok_j {
        let _ = paths.remove(i);
        paths.insert(i, old_i);
        proof {
            assert(paths@ =~= p0) by {
                assert forall|k: int| 0 <= k < p0.len() implies #[trigger] paths@[k] == p0[k] by {
                    if k != i { assert(mid[k] == p0[k]); }
                }
            }
            assert(path_replaced(p0, mid, i as int, spec_reroute(rects@, p0, i as int, q0[i as int], mj.dst_side == Side::Top,
                q0[i as int].sx_override, q0[j as int].tx_override, q0[i as int].src_side, q0[j as int].dst_side)));
        }
        return false;
    }
    let npi = plan_with_ends(&mi, mi.sx_override, mi.src_side, mj.tx_override, mj.dst_side);
    let npj = plan_with_ends(&mj, mj.sx_override, mj.src_side, mi.tx_override, mi.dst_side);
    plans.set(i, npi);
    let ghost pm = plans@;
    plans.set(j, npj);
    proof {
        assert forall|k: int| 0 <= k < plans@.len() implies plan_routable(#[trigger] plans@[k]) by {}
        assert(plans_with(q0, pm, i as int, q0[i as int].sx_override, q0[i as int].src_side, q0[j as int].tx_override, q0[j as int].dst_side));
        assert(path_replaced(p0, mid, i as int, spec_reroute(rects@, p0, i as int, q0[i as int], mj.dst_side == Side::Top,
            q0[i as int].sx_override, q0[j as int].tx_override, q0[i as int].src_side, q0[j as int].dst_side)));
    }
    true
}

/// The edges entering node `d`, among the first `m`, in increasing order.
pub open spec fn into_list(es: Seq<RenderEdge>, d: int, m: int) -> Seq<usize>
    decreases m,
{
    if m <= 0 { Seq::empty() } else if es[m - 1].to == d { into_list(es, d, m - 1).push((m - 1) as usize) } else { into_list(es, d, m - 1) }
}

/// The pairs `(l[a], l[b'])` for `a < b' < b`.
pub open spec fn row_pairs(l: Seq<usize>, a: int, b: int) -> Seq<(usize, usize)>
    decreases b - a,
{
    if b <= a + 1 { Seq::empty() } else { row_pairs(l, a, b - 1).push((l[a], l[b - 1])) }
}

/// The pairs of the first `a` rows of the list, row by row.
pub open spec fn all_pairs(l: Seq<usize>, a: int) -> Seq<(usize, usize)>
    decreases a,
{
    if a <= 0 { Seq::empty() } else { all_pairs(l, a - 1) + row_pairs(l, a - 1, l.len() as int) }
}

/// The pairs a round of uncrossing tries: node by node, every pair of
/// edges into it in index order.
pub open spec fn round_pairs(es: Seq<RenderEdge>, d: int) -> Seq<(usize, usize)>
    decreases d,
{
    if d <= 0 {
        Seq::empty()
    } else {
        let l = into_list(es, d - 1, es.len() as int);
        round_pairs(es, d - 1) + all_pairs(l, l.len() as int)
    }
}

pub open spec fn swap_trace(tp: Seq<Seq<EdgePath>>, tq: Seq<Seq<EdgePlan>>, cf: Seq<bool>, v: Seq<(usize, usize)>, rects: Seq<Rect>, es: Seq<RenderEdge>) -> bool {
    forall|k: int| 0 <= k < v.len() ==> #[trigger] swap_step(tp[k], tq[k], tp[k + 1], tq[k + 1], v[k].0 as int, v[k].1 as int, cf[k], rects, es)
}

/// A run of swap steps over the pairs `v` in turn leads from `(ps, pls)`
/// to `(ps2, pls2)`; `changed` when some swap was kept.
#[verifier::opaque]
pub open spec fn swaps_rel(
    ps: Seq<EdgePath>, pls: Seq<EdgePlan>, ps2: Seq<EdgePath>, pls2: Seq<EdgePlan>, v: Seq<(usize, usize)>, changed: bool,
    rects: Seq<Rect>, es: Seq<RenderEdge>,
) -> bool {
    exists|tp: Seq<Seq<EdgePath>>, tq: Seq<Seq<EdgePlan>>, cf: Seq<bool>| {
        &&& #[trigger] swap_trace(tp, tq, cf, v, rects, es)
        &&& tp.len() == v.len() + 1 && tq.len() == v.len() + 1 && cf.len() == v.len()
        &&& tp[0] == ps && tq[0] == pls && tp[v.len() as int] == ps2 && tq[v.len() as int] == pls2
        &&& (changed <==> exists|k: int| 0 <= k < cf.len() && #[trigger] cf[k])
    }
}

proof fn lemma_swaps_empty(ps: Seq<EdgePath>, pls: Seq<EdgePlan>, rects: Seq<Rect>, es: Seq<RenderEdge>)
    ensures swaps_rel(ps, pls, ps, pls, Seq::empty(), false, rects, es),
{
    reveal(swaps_rel);
    let tp = seq![ps];
    let tq = seq![pls];
    let cf: Seq<bool> = Seq::empty();
    assert(swap_trace(tp, tq, cf, Seq::empty(), rects, es));
}

proof fn lemma_swaps_push(
    ps: Seq<EdgePath>, pls: Seq<EdgePlan>, ps2: Seq<EdgePath>, pls2: Seq<EdgePlan>, ps3: Seq<EdgePath>, pls3: Seq<EdgePlan>,
    v: Seq<(usize, usize)>, changed: bool, pr: (usize, usize), c: bool, rects: Seq<Rect>, es: Seq<RenderEdge>,
)
    requires
        swaps_rel(ps, pls, ps2, pls2, v, changed, rects, es),
        swap_step(ps2, pls2, ps3, pls3, pr.0 as int, pr.1 as int, c, rects, es),
    ensures
        swaps_rel(ps, pls, ps3, pls3, v.push(pr), changed || c, rects, es),
{
    reveal(swaps_rel);
    let (tp, tq, cf) = choose|tp: Seq<Seq<EdgePath>>, tq: Seq<Seq<EdgePlan>>, cf: Seq<bool>| {
        &&& #[trigger] swap_trace(tp, tq, cf, v, rects, es)
        &&& tp.len() == v.len() + 1 && tq.len() == v.len() + 1 && cf.len() == v.len()
        &&& tp[0] == ps && tq[0] == pls && tp[v.len() as int] == ps2 && tq[v.len() as int] == pls2
        &&& (changed <==> exists|k: int| 0 <= k < cf.len() && #[trigger] cf[k])
    };
    let tp2 = tp.push(ps3);
    let tq2 = tq.push(pls3);
    let cf2 = cf.push(c);
    let v2 = v.push(pr);
    assert forall|k: int| 0 <= k < v2.len() implies #[trigger] swap_step(tp2[k], tq2[k], tp2[k + 1], tq2[k + 1], v2[k].0 as int, v2[k].1 as int, cf2[k], rects, es) by {
        if k < v.len() {
            assert(tp2[k] == tp[k] && tp2[k + 1] == tp[k + 1] && tq2[k] == tq[k] && tq2[k + 1] == tq[k + 1]);
            assert(v2[k] == v[k] && cf2[k] == cf[k]);
        } else {
            assert(tp2[k] == ps2 && tq2[k] == pls2 && tp2[k + 1] == ps3 && tq2[k + 1] == pls3 && v2[k] == pr && cf2[k] == c);
        }
    }
    assert(swap_trace(tp2, tq2, cf2, v2, rects, es));
    if changed || c {
        if c {
            assert(cf2[cf.len() as int]);
        } else {
            let k = choose|k: int| 0 <= k < cf.len() && #[trigger] cf[k];
            assert(cf2[k]);
        }
    } else {
        assert forall|k: int| 0 <= k < cf2.len() implies !#[trigger] cf2[k] by {
            if k < cf.len() { assert(cf2[k] == cf[k]); }
        }
    }
}

proof fn lemma_into_list(es: Seq<RenderEdge>, d: int, m: int)
    requires 0 <= m <= es.len(), m <= usize::MAX,
    ensures
        forall|a: int| 0 <= a < into_list(es, d, m).len() ==> #[trigger] into_list(es, d, m)[a] < m,
        forall|a: int, b: int| 0 <= a < b < into_list(es, d, m).len() ==>
            #[trigger] into_list(es, d, m)[a] < #[trigger] into_list(es, d, m)[b],
    decreases m,
{
    if m > 0 {
        lemma_into_list(es, d, m - 1);
        let prev = into_list(es, d, m - 1);
        let cur = into_list(es, d, m);
        let last: usize = (m - 1) as usize;
        assert(last == m - 1);
        if es[m - 1].to == d {
            assert(cur == prev.push(last));
            assert forall|a: int| 0 <= a < cur.len() implies #[trigger] cur[a] < m by {
                if a < prev.len() { assert(cur[a] == prev[a]); }
            }
            assert forall|a: int, b: int| 0 <= a < b < cur.len() implies #[trigger] cur[a] < #[trigger] cur[b] by {
                assert(cur[a] == prev[a]);
                if b < prev.len() { assert(cur[b] == prev[b]); }
            }
        } else {
            assert(cur == prev);
            assert forall|a: int| 0 <= a < cur.len() implies #[trigger] cur[a] < m by {
                assert(cur[a] == prev[a]);
            }
        }
    }
}

/// One round of uncrossing: every pair of `round_pairs` in turn.
pub open spec fn uncross_rel(
    ps: Seq<EdgePath>, pls: Seq<EdgePlan>, ps2: Seq<EdgePath>, pls2: Seq<EdgePlan>, changed: bool,
    rects: Seq<Rect>, es: Seq<RenderEdge>,
) -> bool {
    swaps_rel(ps, pls, ps2, pls2, round_pairs(es, rects.len() as int), changed, rects, es)
}

#[verifier::spinoff_prover]
#[verifier::rlimit(40)]
fn uncross_round(paths: &mut Vec<EdgePath>, rects: &[Rect], edges: &[RenderEdge], plans: &mut Vec<EdgePlan>) -> (changed: bool)
    requires
        layout_ok(old(paths)@, edges@, rects@),
        old(plans)@.len() == edges@.len(),
        plans_routable(old(plans)@),
    ensures
        layout_ok(final(paths)@, edges@, rects@),
        final(plans)@.len() == edges@.len(),
        plans_routable(final(plans)@),
        uncross_rel(old(paths)@, old(plans)@, final(paths)@, final(plans)@, changed, rects@, edges@),
{
    let ghost p0 = paths@;
    let ghost q0 = plans@;
    let ghost es = edges@;
    let n = rects.len();
    let m = edges.len();
    let mut changed = false;
    proof { lemma_swaps_empty(p0, q0, rects@, es); }
    let mut d: usize = 0;
    while d < n
        invariant
            d <= n, n == rects@.len(), m == es.len(), es == edges@,
            layout_ok(paths@, edges@, rects@), plans@.len() == edges@.len(), plans_routable(plans@),
            swaps_rel(p0, q0, paths@, plans@, round_pairs(es, d as int), changed, rects@, es),
        decreases n - d,
    {
        let mut idxs: Vec<usize> = Vec::new();
        let mut k: usize = 0;
        while k < m
            invariant k <= m, m == es.len(), es == edges@, idxs@ == into_list(es, d as int, k as int),
            decreases m - k,
        {
            if edges[k].to == d {
                idxs.push(k);
            }
            k += 1;
        }
        proof { lemma_into_list(es, d as int, m as int); }
        let ghost l = idxs@;
        let ghost base = round_pairs(es, d as int);
        let mut a: usize = 0;
        while a < idxs.len()
            invariant
                a <= l.len(), idxs@ == l, l == into_list(es, d as int, m as int), m == es.len(), es == edges@,
                m == paths@.len(),
                forall|q: int| 0 <= q < l.len() ==> #[trigger] l[q] < m,
                forall|x: int, y: int| 0 <= x < y < l.len() ==> #[trigger] l[x] < #[trigger] l[y],
                layout_ok(paths@, edges@, rects@), plans@.len() == edges@.len(), plans_routable(plans@),
                swaps_rel(p0, q0, paths@, plans@, base + all_pairs(l, a as int), changed, rects@, es),
            decreases l.len() - a,
        {
            let mut b: usize = a + 1;
            proof {
                assert(row_pairs(l, a as int, a + 1) == Seq::<(usize, usize)>::empty());
                assert(base + all_pairs(l, a as int) + row_pairs(l, a as int, b as int) == base + all_pairs(l, a as int));
            }
            while b < idxs.len()
                invariant
                    a < l.len(), a + 1 <= b <= l.len(), idxs@ == l, m == paths@.len(), m == es.len(), es == edges@,
                    forall|q: int| 0 <= q < l.len() ==> #[trigger] l[q] < m,
                    forall|x: int, y: int| 0 <= x < y < l.len() ==> #[trigger] l[x] < #[trigger] l[y],
                    layout_ok(paths@, edges@, rects@), plans@.len() == edges@.len(), plans_routable(plans@),
                    swaps_rel(p0, q0, paths@, plans@, base + all_pairs(l, a as int) + row_pairs(l, a as int, b as int), changed, rects@, es),
                decreases l.len() - b,
            {
                let ghost bp = paths@;
                let ghost bq = plans@;
                let c = try_swap(paths, idxs[a], idxs[b], rects, edges, plans);
                proof {
                    let ghost pre = base + all_pairs(l, a as int) + row_pairs(l, a as int, b as int);
                    lemma_swaps_push(p0, q0, bp, bq, paths@, plans@, pre, changed, (l[a as int], l[b as int]), c, rects@, es);
                    assert(pre.push((l[a as int], l[b as int])) == base + all_pairs(l, a as int) + row_pairs(l, a as int, b + 1));
                }
                if c {
                    changed = true;
                }
                b += 1;
            }
            proof {
                assert(base + all_pairs(l, a as int) + row_pairs(l, a as int, l.len() as int) == base + all_pairs(l, a + 1));
            }
            a += 1;
        }
        proof {
            assert(round_pairs(es, d + 1) == base + all_pairs(l, l.len() as int));
        }
        d += 1;
    }
    changed
}

pub open spec fn uncross_trace(lp: Seq<Seq<EdgePath>>, lq: Seq<Seq<EdgePlan>>, flags: Seq<bool>, rects: Seq<Rect>, es: Seq<RenderEdge>) -> bool {
    forall|k: int| 0 <= k < flags.len() ==> #[trigger] uncross_rel(lp[k], lq[k], lp[k + 1], lq[k + 1], flags[k], rects, es)
}

/// Inputs uncrossed in rounds (`uncross_rel`), at most four, stopping
/// after the first round that swaps nothing. In a round, for each node in
/// turn, every pair of edges into it (in index order) swaps its target
/// ports when they are inverted (`swap_step`).
#[verifier::spinoff_prover]
pub fn uncross_inputs(paths: &mut Vec<EdgePath>, rects: &[Rect], edges: &[RenderEdge], plans: &mut Vec<EdgePlan>)
    requires
        layout_ok(old(paths)@, edges@, rects@),
        old(plans)@.len() == edges@.len(),
        plans_routable(old(plans)@),
    ensures
        layout_ok(final(paths)@, edges@, rects@),
        final(plans)@.len() == edges@.len(),
        plans_routable(final(plans)@),
        exists|lp: Seq<Seq<EdgePath>>, lq: Seq<Seq<EdgePlan>>, flags: Seq<bool>| {
            &&& #[trigger] uncross_trace(lp, lq, flags, rects@, edges@)
            &&& lp.len() == flags.len() + 1 && lq.len() == flags.len() + 1 && 1 <= flags.len() <= 4
            &&& lp[0] == old(paths)@ && lq[0] == old(plans)@
            &&& lp[flags.len() as int] == final(paths)@ && lq[flags.len() as int] == final(plans)@
            &&& forall|k: int| 0 <= k < flags.len() - 1 ==> #[trigger] flags[k]
            &&& (flags.len() == 4 || !flags[flags.len() - 1])
        },
{
    let ghost mut lp: Seq<Seq<EdgePath>> = seq![paths@];
    let ghost mut lq: Seq<Seq<EdgePlan>> = seq![plans@];
    let ghost mut flags: Seq<bool> = Seq::empty();
    let mut round: usize = 0;
    loop
        invariant_except_break
            forall|k: int| 0 <= k < flags.len() ==> #[trigger] flags[k],
            round < 4,
        invariant
            flags.len() == round,
            layout_ok(paths@, edges@, rects@), plans@.len() == edges@.len(), plans_routable(plans@),
            lp.len() == flags.len() + 1 && lq.len() == flags.len() + 1,
            lp[0] == old(paths)@ && lq[0] == old(plans)@,
            lp[flags.len() as int] == paths@ && lq[flags.len() as int] == plans@,
            uncross_trace(lp, lq, flags, rects@, edges@),
        ensures
            1 <= flags.len() <= 4,
            forall|k: int| 0 <= k < flags.len() - 1 ==> #[trigger] flags[k],
            flags.len() == 4 || !flags[flags.len() - 1],
        decreases 4 - round,
    {
        let ghost bp = paths@;
        let ghost bq = plans@;
        let changed = uncross_round(paths, rects, edges, plans);
        proof {
            let ghost lp0 = lp;
            let ghost lq0 = lq;
            let ghost f0 = flags;
            lp = lp.push(paths@);
            lq = lq.push(plans@);
            flags = flags.push(changed);
            assert forall|k: int| 0 <= k < flags.len() implies #[trigger] uncross_rel(lp[k], lq[k], lp[k + 1], lq[k + 1], flags[k], rects@, edges@) by {
                if k < f0.len() {
                    assert(lp[k] == lp0[k] && lp[k + 1] == lp0[k + 1] && lq[k] == lq0[k] && lq[k + 1] == lq0[k + 1] && flags[k] == f0[k]);
                    assert(uncross_rel(lp0[k], lq0[k], lp0[k + 1], lq0[k + 1], f0[k], rects@, edges@));
                } else {
                    assert(lp[k] == bp && lq[k] == bq && lp[k + 1] == paths@ && lq[k + 1] == plans@ && flags[k] == changed);
                }
            }
        }
        round += 1;
        if !changed || round == 4 {
            break;
        }
    }
}

/// The first pass as `route_initial` states it: `ps` routes every edge
/// by `spec_best` against the edges before it, and `q1` records its ports.
pub open spec fn initial_routes(rs: Seq<Rect>, es: Seq<RenderEdge>, q0: Seq<EdgePlan>, ps: Seq<EdgePath>, q1: Seq<EdgePlan>) -> bool {
    &&& routed_as(ps, es)
    &&& edges_ok(ps) && total_pts(ps, ps.len() as int) <= 0x1_0000
    &&& q1.len() == es.len() && plans_routable(q1)
    &&& forall|k: int| 0 <= k < ps.len() ==> {
        let b = #[trigger] spec_best(rs, es[k], q0[k], ps.take(k));
        &&& b is Some
        &&& ps[k].path@ == b->0.path
        &&& plan_moved(q0[k], q1[k], rs, es[k], b->0.sp, b->0.tp)
    }
}

/// `b` comes from `a` by the improvement rounds of `improve_routes`.
pub open spec fn improved_routes(a: Seq<EdgePath>, b: Seq<EdgePath>, rs: Seq<Rect>, es: Seq<RenderEdge>, pls: Seq<EdgePlan>) -> bool {
    exists|ls: Seq<Seq<EdgePath>>, flags: Seq<bool>| {
        &&& ls.len() == flags.len() + 1 && 1 <= flags.len() <= 6
        &&& ls[0] == a && ls[flags.len() as int] == b
        &&& forall|k: int| 0 <= k < flags.len() ==> improve_rel(#[trigger] ls[k], ls[k + 1], flags[k], rs, es, pls)
        &&& forall|k: int| 0 <= k < flags.len() - 1 ==> #[trigger] flags[k]
        &&& (flags.len() == 6 || !flags[flags.len() - 1])
    }
}

/// `(b, qb)` comes from `(a, qa)` by the steps of `straighten_single_ends`.
pub open spec fn straightened(a: Seq<EdgePath>, qa: Seq<EdgePlan>, b: Seq<EdgePath>, qb: Seq<EdgePlan>, rs: Seq<Rect>, es: Seq<RenderEdge>) -> bool {
    exists|tp: Seq<Seq<EdgePath>>, tq: Seq<Seq<EdgePlan>>| {
        &&& #[trigger] straighten_trace(tp, tq, rs.len() as int, rs, es)
        &&& tp.len() == 2 * rs.len() + 1 && tq.len() == 2 * rs.len() + 1
        &&& tp[0] == a && tq[0] == qa
        &&& tp[2 * rs.len() as int] == b && tq[2 * rs.len() as int] == qb
    }
}

/// `(b, qb)` comes from `(a, qa)` by the rounds of `resolve_port_conflicts`.
pub open spec fn conflicts_resolved(a: Seq<EdgePath>, qa: Seq<EdgePlan>, b: Seq<EdgePath>, qb: Seq<EdgePlan>, rs: Seq<Rect>, es: Seq<RenderEdge>) -> bool {
    exists|lp: Seq<Seq<EdgePath>>, lq: Seq<Seq<EdgePlan>>, flags: Seq<bool>| {
        &&& #[trigger] rounds_trace(lp, lq, flags, rs, es)
        &&& lp.len() == flags.len() + 1 && lq.len() == flags.len() + 1 && 1 <= flags.len() <= 6
        &&& lp[0] == a && lq[0] == qa
        &&& lp[flags.len() as int] == b && lq[flags.len() as int] == qb
        &&& forall|k: int| 0 <= k < flags.len() - 1 ==> #[trigger] flags[k]
        &&& (flags.len() == 6 || !flags[flags.len() - 1])
    }
}

/// `(b, qb)` comes from `(a, qa)` by the rounds of `uncross_inputs`.
pub open spec fn inputs_uncrossed(a: Seq<EdgePath>, qa: Seq<EdgePlan>, b: Seq<EdgePath>, qb: Seq<EdgePlan>, rs: Seq<Rect>, es: Seq<RenderEdge>) -> bool {
    exists|lp: Seq<Seq<EdgePath>>, lq: Seq<Seq<EdgePlan>>, flags: Seq<bool>| {
        &&& #[trigger] uncross_trace(lp, lq, flags, rs, es)
        &&& lp.len() == flags.len() + 1 && lq.len() == flags.len() + 1 && 1 <= flags.len() <= 4
        &&& lp[0] == a && lq[0] == qa
        &&& lp[flags.len() as int] == b && lq[flags.len() as int] == qb
        &&& forall|k: int| 0 <= k < flags.len() - 1 ==> #[trigger] flags[k]
        &&& (flags.len() == 4 || !flags[flags.len() - 1])
    }
}

/// Routes every edge: the first pass (`route_initial`), then the
/// improvement rounds, the straightening of single ends, the port conflict
/// rounds and the input uncrossing rounds, each on the result of the one
/// before. `None` only when the first pass gives up (`initial_overflow`).
pub fn route_edges(rects: &[Rect], edges: &[RenderEdge], plans: &mut Vec<EdgePlan>) -> (r: Option<Vec<EdgePath>>)
    requires
        rects_ok(rects@), rects@.len() <= 0x10_0000,
        crate::layout::small_rects(rects@),
        crate::layout::edges_in(edges@, rects@.len() as int),
        old(plans)@.len() == edges@.len(),
        plans_routable(old(plans)@),
    ensures
        final(plans)@.len() == edges@.len(),
        plans_routable(final(plans)@),
        r matches Some(ps) ==> layout_ok(ps@, edges@, rects@) && exists|p1: Seq<EdgePath>, q1: Seq<EdgePlan>, p2: Seq<EdgePath>,
            p3: Seq<EdgePath>, q3: Seq<EdgePlan>, p4: Seq<EdgePath>, q4: Seq<EdgePlan>| {
            &&& #[trigger] initial_routes(rects@, edges@, old(plans)@, p1, q1)
            &&& #[trigger] improved_routes(p1, p2, rects@, edges@, q1)
            &&& #[trigger] straightened(p2, q1, p3, q3, rects@, edges@)
            &&& #[trigger] conflicts_resolved(p3, q3, p4, q4, rects@, edges@)
            &&& #[trigger] inputs_uncrossed(p4, q4, ps@, final(plans)@, rects@, edges@)
        },
        r is None ==> exists|ps: Seq<EdgePath>| #[trigger] initial_overflow(rects@, edges@, old(plans)@, ps),
{
    let ghost q0 = plans@;
    let first = route_initial(rects, edges, plans);
    match first {
        None => {
            None
        },
        Some(mut paths) => {
            let ghost p1 = paths@;
            let ghost q1 = plans@;
            assert(initial_routes(rects@, edges@, q0, p1, q1));
            improve_routes(&mut paths, rects, edges, plans);
            let ghost p2 = paths@;
            assert(improved_routes(p1, p2, rects@, edges@, q1));
            straighten_single_ends(&mut paths, rects, edges, plans);
            let ghost p3 = paths@;
            let ghost q3 = plans@;
            assert(straightened(p2, q1, p3, q3, rects@, edges@));
            resolve_port_conflicts(&mut paths, rects, edges, plans);
            let ghost p4 = paths@;
            let ghost q4 = plans@;
            assert(conflicts_resolved(p3, q3, p4, q4, rects@, edges@));
            uncross_inputs(&mut paths, rects, edges, plans);
            assert(inputs_uncrossed(p4, q4, paths@, plans@, rects@, edges@));
            Some(paths)
        },
    }
}

} // verus!
