//! The candidate-path router: builds orthogonal candidate paths for one edge
//! and picks the best with `choose_best_path`.
use vstd::prelude::*;
use crate::geometry::{
    Pt, Rect, Side, tdiv, iabs, imin, imax, coord_ok, pt_ok, path_ok, rects_ok, spec_snap_y, snap_y,
    min_i32, max_i32, abs_i32, spec_terminal_dir_ok, terminal_dir_ok_for_side, MIN_LINE_GAP,
    MIN_EXIT_HORIZONTAL, MIN_EXIT_VERTICAL, MIN_TOP_ENTRY_LEN,
};
use crate::path::{EdgePath, spec_simplify_path, simplify_path, lemma_simplify_endpoints, orthogonal, step_orth, lemma_simplify_orth};
use crate::routing::{
    spec_clear_x, clear_vertical_x, clamp, spec_choose_best, choose_best_path, cands_ok, edges_ok,
    total_pts, lemma_choose_best_member,
};

verus! {

/// Coordinates given to the router stay within this smaller box (2^18),
/// so that every point it derives (exit stubs, lanes cleared by up to 80
/// steps, padded detours) stays within `coord_ok`.
pub open spec fn small(v: int) -> bool {
    -0x4_0000 <= v <= 0x4_0000
}

pub open spec fn small_pt(p: Pt) -> bool {
    small(p.0 as int) && small(p.1 as int)
}

/// Horizontal offset of the `out_idx`-th of `out_count` outgoing edges,
/// centred on zero in steps of `MIN_LINE_GAP`.
pub open spec fn spec_offset(out_idx: int, out_count: int) -> int {
    (2 * out_idx - out_count + 1) * 30
}

/// Exit point `(sx, sy)` of the stub leaving the source port, and the stub
/// path from the port to it.
pub open spec fn spec_route_start(src_side: Side, base: Pt, off: int, out_count: int) -> (int, int, Seq<Pt>) {
    let exit_h = MIN_EXIT_HORIZONTAL + imin(MIN_LINE_GAP as int, tdiv(iabs(off), 2));
    let exit_v = MIN_EXIT_VERTICAL + imin(MIN_LINE_GAP as int, tdiv(iabs(off), 2));
    let jog = if out_count > 2 { imax(-MIN_LINE_GAP, imin(MIN_LINE_GAP as int, off)) } else { 0 };
    let (sxb, syb) = (base.0 as int, base.1 as int);
    match src_side {
        Side::Left | Side::Right => {
            let sx = if src_side == Side::Left { sxb - exit_h } else { sxb + exit_h };
            let sy = spec_snap_y(syb + tdiv(off, 2));
            let p = seq![base, (sx as i32, base.1)];
            (sx, sy, if sy != syb { p.push((sx as i32, sy as i32)) } else { p })
        },
        _ => {
            let sy = if src_side == Side::Top { syb - exit_v } else { syb + exit_v };
            let sx = sxb + jog;
            let p = seq![base, (base.0, sy as i32)];
            (sx, sy, if sx != sxb { p.push((sx as i32, sy as i32)) } else { p })
        },
    }
}

fn route_start(src_side: Side, base: Pt, off: i32, out_count: i32) -> (r: (i32, i32, Vec<Pt>))
    requires small_pt(base), -0x2_0000 <= off <= 0x2_0000,
    ensures
        r.0 == spec_route_start(src_side, base, off as int, out_count as int).0,
        r.1 == spec_route_start(src_side, base, off as int, out_count as int).1,
        r.2@ == spec_route_start(src_side, base, off as int, out_count as int).2,
        path_ok(r.2@), 2 <= r.2@.len() <= 3, r.2@[0] == base, r.2@.last() == (r.0, r.1), orthogonal(r.2@),
        -0x6_0000 <= r.0 <= 0x6_0000, -0x6_0000 <= r.1 <= 0x6_0000,
{
    let exit_h = MIN_EXIT_HORIZONTAL + min_i32(MIN_LINE_GAP, abs_i32(off) / 2);
    let exit_v = MIN_EXIT_VERTICAL + min_i32(MIN_LINE_GAP, abs_i32(off) / 2);
    let jog_off = if out_count > 2 { max_i32(-MIN_LINE_GAP, min_i32(MIN_LINE_GAP, off)) } else { 0 };
    let (sx_base, sy_base) = base;
    match src_side {
        Side::Left | Side::Right => {
            let sx = if matches!(src_side, Side::Left) { sx_base - exit_h } else { sx_base + exit_h };
            let sy = snap_y(sy_base + off / 2);
            let mut p = vec![(sx_base, sy_base), (sx, sy_base)];
            if sy != sy_base {
                p.push((sx, sy));
            }
            (sx, sy, p)
        },
        _ => {
            let sy = if matches!(src_side, Side::Top) { sy_base - exit_v } else { sy_base + exit_v };
            let sx = sx_base + jog_off;
            let mut p = vec![(sx_base, sy_base), (sx_base, sy)];
            if sx != sx_base {
                p.push((sx, sy));
            }
            (sx, sy, p)
        },
    }
}

/// Rows at which the edge turns after leaving the source: around the
/// source's split row shifted by the offset, never above the exit point.
pub open spec fn spec_split_vals(split_y: int, off: int, sy: int) -> Seq<i32> {
    seq![
        imax(spec_snap_y(split_y + off), sy + 12) as i32,
        imax(spec_snap_y(split_y + off + MIN_LINE_GAP), sy + 12) as i32,
        imax(spec_snap_y(split_y + off - MIN_LINE_GAP), sy + 12) as i32,
        imax(spec_snap_y(split_y), sy + 12) as i32,
    ]
}

pub open spec fn is_lr(s: Side) -> bool {
    s == Side::Left || s == Side::Right
}

/// Rows at which the edge runs towards the target before its final leg.
pub open spec fn spec_near_vals(ty: int, dst_side: Side) -> Seq<i32> {
    let near_t = spec_snap_y(ty - 26);
    let all = seq![near_t as i32, spec_snap_y(near_t - MIN_LINE_GAP) as i32, spec_snap_y(near_t + MIN_LINE_GAP) as i32];
    if is_lr(dst_side) {
        seq![ty as i32]
    } else if dst_side == Side::Top {
        let f = all.filter(|v: i32| v <= ty - MIN_TOP_ENTRY_LEN);
        if f.len() == 0 { seq![(ty - MIN_TOP_ENTRY_LEN) as i32] } else { f }
    } else if dst_side == Side::Bottom {
        let f = all.filter(|v: i32| v > ty);
        if f.len() == 0 { seq![(ty + 30) as i32] } else { f }
    } else {
        all
    }
}

/// The fixed data of one routing request.
#[derive(Debug, Clone, Copy)]
pub struct RouteCtx {
    pub sx: i32,
    pub sy: i32,
    pub tx: i32,
    pub ty: i32,
    pub off: i32,
    pub dst_side: Side,
    pub force_center: bool,
    pub prefer_side: Option<Side>,
    pub src: usize,
    pub dst: usize,
    pub min_x: i32,
    pub max_x: i32,
}

/// The kind of candidate family generated for each (split row, near row)
/// pair.
#[derive(Debug, Clone, Copy)]
pub enum CandKind {
    /// Direct routes between the exit point and the target.
    Main,
    /// Routes through the vertical lane near `lane_x`, cleared in direction
    /// `dir`.
    Lane(i32, i32),
    /// Routes around all nodes, through lanes cleared from `left_x`
    /// leftward and from `right_x` rightward.
    Pad(i32, i32),
}

pub open spec fn mid_ok(v: int) -> bool {
    -0x8_0000 <= v <= 0x8_0000
}

pub open spec fn ctx_ok(c: RouteCtx) -> bool {
    -0x6_0000 <= c.sx <= 0x6_0000 && -0x6_0000 <= c.sy <= 0x6_0000 && small(c.tx as int) && small(c.ty as int)
        && -0x2_0000 <= c.off <= 0x2_0000 && small(c.min_x as int) && small(c.max_x as int)
}

/// A route that runs down from the exit point to row `sp`, across to lane
/// `lx`, along the lane to row `nt`, and then into the target (sideways for
/// side ports, from above or below otherwise).
pub open spec fn lane_path(c: RouteCtx, sp: i32, nt: i32, lx: i32) -> Seq<Pt> {
    if is_lr(c.dst_side) {
        seq![(c.sx, c.sy), (c.sx, sp), (lx, sp), (lx, nt), (lx, c.ty), (c.tx, c.ty)]
    } else {
        seq![(c.sx, c.sy), (c.sx, sp), (lx, sp), (lx, nt), (c.tx, nt), (c.tx, c.ty)]
    }
}

pub open spec fn spec_pair_cands(kind: CandKind, sp: i32, nt: i32, c: RouteCtx, rects: Seq<Rect>) -> Seq<Seq<Pt>> {
    match kind {
        CandKind::Main => {
            if is_lr(c.dst_side) {
                let jx = (if c.dst_side == Side::Left { c.tx - 44 } else { c.tx + 44 }) as i32;
                let a = seq![(c.sx, c.sy), (c.sx, sp), (jx, sp), (jx, nt), (jx, c.ty), (c.tx, c.ty)];
                let mid = (tdiv(c.sx + jx, 2) + c.off) as i32;
                let b = seq![(c.sx, c.sy), (c.sx, sp), (mid, sp), (mid, c.ty), (c.tx, c.ty)];
                if c.prefer_side is None { seq![a, b] } else { seq![a] }
            } else {
                let base = seq![seq![(c.sx, c.sy), (c.sx, sp), (c.tx, sp), (c.tx, nt), (c.tx, c.ty)]];
                let my = spec_snap_y(tdiv(sp + nt, 2)) as i32;
                let with_center = if c.force_center {
                    base.push(seq![(c.sx, c.sy), (c.sx, my), (c.tx, my), (c.tx, c.ty)])
                } else { base };
                let mid = (tdiv(c.sx + c.tx, 2) + c.off) as i32;
                if c.prefer_side is None {
                    with_center.push(seq![(c.sx, c.sy), (c.sx, sp), (mid, sp), (mid, nt), (c.tx, nt), (c.tx, c.ty)])
                        .push(seq![(c.sx, c.sy), (c.sx, sp), (mid, sp), (c.tx, sp), (c.tx, c.ty)])
                } else { with_center }
            }
        },
        CandKind::Lane(lane_x, dir) => {
            let lx = spec_clear_x(lane_x, if sp <= nt { sp } else { nt }, if sp >= nt { sp } else { nt },
                rects, c.src, c.dst, dir, c.min_x, c.max_x, 80);
            seq![lane_path(c, sp, nt, lx)]
        },
        CandKind::Pad(left_x, right_x) => {
            let lo = if sp <= nt { sp } else { nt };
            let hi = if sp >= nt { sp } else { nt };
            let lx = spec_clear_x(left_x, lo, hi, rects, c.src, c.dst, -1i32, c.min_x, c.max_x, 80);
            let rx = spec_clear_x(right_x, lo, hi, rects, c.src, c.dst, 1i32, c.min_x, c.max_x, 80);
            if c.prefer_side == Some(Side::Left) {
                seq![lane_path(c, sp, nt, lx), lane_path(c, sp, nt, rx)]
            } else {
                seq![lane_path(c, sp, nt, rx), lane_path(c, sp, nt, lx)]
            }
        },
    }
}

pub open spec fn kind_ok(kind: CandKind) -> bool {
    match kind {
        CandKind::Main => true,
        CandKind::Lane(x, d) => small(x as int) && -1 <= d <= 1,
        CandKind::Pad(l, r) => mid_ok(l as int) && mid_ok(r as int),
    }
}

/// Every candidate is an orthogonal path of at most six points within the
/// canvas bound that starts at the exit point and ends at the target.
pub open spec fn cand_shape_ok(p: Seq<Pt>, c: RouteCtx) -> bool {
    path_ok(p) && 2 <= p.len() <= 6 && p[0] == (c.sx, c.sy) && p.last() == (c.tx, c.ty) && orthogonal(p)
}

pub open spec fn all_shape_ok(ps: Seq<Seq<Pt>>, c: RouteCtx) -> bool {
    forall|i: int| 0 <= i < ps.len() ==> cand_shape_ok(#[trigger] ps[i], c)
}

proof fn lemma_clear_x_bound(x: i32, lo: i32, hi: i32, rects: Seq<Rect>, src: usize, dst: usize, dir: i32, min_x: i32, max_x: i32, n: nat)
    requires mid_ok(x as int), small(min_x as int), small(max_x as int),
    ensures mid_ok(spec_clear_x(x, lo, hi, rects, src, dst, dir, min_x, max_x, n) as int),
    decreases n,
{
    if n > 0 && crate::routing::vertical_blocked(x, lo, hi, rects, src, dst) {
        let nx = clamp(x + dir * MIN_LINE_GAP, min_x as int, max_x as int);
        assert(small(nx));
        lemma_clear_x_bound(nx as i32, lo, hi, rects, src, dst, dir, min_x, max_x, (n - 1) as nat);
    }
}

fn pair_cands(kind: CandKind, sp: i32, nt: i32, c: RouteCtx, rects: &[Rect]) -> (out: Vec<Vec<Pt>>)
    requires ctx_ok(c), kind_ok(kind), mid_ok(sp as int), mid_ok(nt as int),
    ensures
        out@.map_values(|v: Vec<Pt>| v@) == spec_pair_cands(kind, sp, nt, c, rects@),
        all_shape_ok(spec_pair_cands(kind, sp, nt, c, rects@), c),
{
    let mut out: Vec<Vec<Pt>> = Vec::new();
    match kind {
        CandKind::Main => {
            if matches!(c.dst_side, Side::Left) || matches!(c.dst_side, Side::Right) {
                let jx = if matches!(c.dst_side, Side::Left) { c.tx - 44 } else { c.tx + 44 };
                out.push(vec![(c.sx, c.sy), (c.sx, sp), (jx, sp), (jx, nt), (jx, c.ty), (c.tx, c.ty)]);
                if c.prefer_side.is_none() {
                    let mid = ((c.sx + jx) / 2) + c.off;
                    out.push(vec![(c.sx, c.sy), (c.sx, sp), (mid, sp), (mid, c.ty), (c.tx, c.ty)]);
                }
            } else {
                out.push(vec![(c.sx, c.sy), (c.sx, sp), (c.tx, sp), (c.tx, nt), (c.tx, c.ty)]);
                if c.force_center {
                    let my = snap_y((sp + nt) / 2);
                    out.push(vec![(c.sx, c.sy), (c.sx, my), (c.tx, my), (c.tx, c.ty)]);
                }
                if c.prefer_side.is_none() {
                    let mid = ((c.sx + c.tx) / 2) + c.off;
                    out.push(vec![(c.sx, c.sy), (c.sx, sp), (mid, sp), (mid, nt), (c.tx, nt), (c.tx, c.ty)]);
                    out.push(vec![(c.sx, c.sy), (c.sx, sp), (mid, sp), (c.tx, sp), (c.tx, c.ty)]);
                }
            }
        },
        CandKind::Lane(lane_x, dir) => {
            let lx = clear_vertical_x(lane_x, sp, nt, rects, c.src, c.dst, dir, c.min_x, c.max_x);
            proof {
                lemma_clear_x_bound(lane_x, if sp <= nt { sp } else { nt }, if sp >= nt { sp } else { nt },
                    rects@, c.src, c.dst, dir, c.min_x, c.max_x, 80);
            }
            out.push(lane_vec(c, sp, nt, lx));
        },
        CandKind::Pad(left_x, right_x) => {
            let lx = clear_vertical_x(left_x, sp, nt, rects, c.src, c.dst, -1i32, c.min_x, c.max_x);
            let rx = clear_vertical_x(right_x, sp, nt, rects, c.src, c.dst, 1, c.min_x, c.max_x);
            proof {
                lemma_clear_x_bound(left_x, if sp <= nt { sp } else { nt }, if sp >= nt { sp } else { nt },
                    rects@, c.src, c.dst, -1i32, c.min_x, c.max_x, 80);
                lemma_clear_x_bound(right_x, if sp <= nt { sp } else { nt }, if sp >= nt { sp } else { nt },
                    rects@, c.src, c.dst, 1i32, c.min_x, c.max_x, 80);
            }
            if matches!(c.prefer_side, Some(Side::Left)) {
                out.push(lane_vec(c, sp, nt, lx));
                out.push(lane_vec(c, sp, nt, rx));
            } else {
                out.push(lane_vec(c, sp, nt, rx));
                out.push(lane_vec(c, sp, nt, lx));
            }
        },
    }
    assert(out@.map_values(|v: Vec<Pt>| v@) =~= spec_pair_cands(kind, sp, nt, c, rects@));
    out
}

fn lane_vec(c: RouteCtx, sp: i32, nt: i32, lx: i32) -> (v: Vec<Pt>)
    requires ctx_ok(c), mid_ok(sp as int), mid_ok(nt as int), mid_ok(lx as int),
    ensures v@ == lane_path(c, sp, nt, lx), cand_shape_ok(v@, c),
{
    if matches!(c.dst_side, Side::Left) || matches!(c.dst_side, Side::Right) {
        vec![(c.sx, c.sy), (c.sx, sp), (lx, sp), (lx, nt), (lx, c.ty), (c.tx, c.ty)]
    } else {
        vec![(c.sx, c.sy), (c.sx, sp), (lx, sp), (lx, nt), (c.tx, nt), (c.tx, c.ty)]
    }
}

pub open spec fn row_cands(kind: CandKind, sp: i32, nts: Seq<i32>, c: RouteCtx, rects: Seq<Rect>, j: int) -> Seq<Seq<Pt>>
    decreases j,
{
    if j <= 0 { Seq::empty() } else { row_cands(kind, sp, nts, c, rects, j - 1) + spec_pair_cands(kind, sp, nts[j - 1], c, rects) }
}

pub open spec fn grid_cands(kind: CandKind, sps: Seq<i32>, nts: Seq<i32>, c: RouteCtx, rects: Seq<Rect>, i: int) -> Seq<Seq<Pt>>
    decreases i,
{
    if i <= 0 { Seq::empty() } else { grid_cands(kind, sps, nts, c, rects, i - 1) + row_cands(kind, sps[i - 1], nts, c, rects, nts.len() as int) }
}

pub open spec fn vals_ok(v: Seq<i32>) -> bool {
    forall|i: int| 0 <= i < v.len() ==> mid_ok(#[trigger] v[i] as int)
}

proof fn lemma_all_shape_concat(a: Seq<Seq<Pt>>, b: Seq<Seq<Pt>>, c: RouteCtx)
    requires all_shape_ok(a, c), all_shape_ok(b, c),
    ensures all_shape_ok(a + b, c),
{
    assert forall|i: int| 0 <= i < (a + b).len() implies cand_shape_ok(#[trigger] (a + b)[i], c) by {
        if i < a.len() { assert((a + b)[i] == a[i]); } else { assert((a + b)[i] == b[i - a.len()]); }
    }
}

proof fn lemma_grid_shape(kind: CandKind, sps: Seq<i32>, nts: Seq<i32>, c: RouteCtx, rects: Seq<Rect>, i: int)
    requires ctx_ok(c), kind_ok(kind), vals_ok(sps), vals_ok(nts), 0 <= i <= sps.len(),
    ensures all_shape_ok(grid_cands(kind, sps, nts, c, rects, i), c),
    decreases i,
{
    if i > 0 {
        lemma_grid_shape(kind, sps, nts, c, rects, i - 1);
        lemma_row_shape(kind, sps[i - 1], nts, c, rects, nts.len() as int);
        lemma_all_shape_concat(grid_cands(kind, sps, nts, c, rects, i - 1), row_cands(kind, sps[i - 1], nts, c, rects, nts.len() as int), c);
    }
}

proof fn lemma_row_shape(kind: CandKind, sp: i32, nts: Seq<i32>, c: RouteCtx, rects: Seq<Rect>, j: int)
    requires ctx_ok(c), kind_ok(kind), mid_ok(sp as int), vals_ok(nts), 0 <= j <= nts.len(),
    ensures all_shape_ok(row_cands(kind, sp, nts, c, rects, j), c),
    decreases j,
{
    if j > 0 {
        lemma_row_shape(kind, sp, nts, c, rects, j - 1);
        pair_shape(kind, sp, nts[j - 1], c, rects);
        lemma_all_shape_concat(row_cands(kind, sp, nts, c, rects, j - 1), spec_pair_cands(kind, sp, nts[j - 1], c, rects), c);
    }
}

proof fn pair_shape(kind: CandKind, sp: i32, nt: i32, c: RouteCtx, rects: Seq<Rect>)
    requires ctx_ok(c), kind_ok(kind), mid_ok(sp as int), mid_ok(nt as int),
    ensures all_shape_ok(spec_pair_cands(kind, sp, nt, c, rects), c),
{
    match kind {
        CandKind::Lane(lane_x, dir) => {
            lemma_clear_x_bound(lane_x, if sp <= nt { sp } else { nt }, if sp >= nt { sp } else { nt },
                rects, c.src, c.dst, dir, c.min_x, c.max_x, 80);
        },
        CandKind::Pad(left_x, right_x) => {
            lemma_clear_x_bound(left_x, if sp <= nt { sp } else { nt }, if sp >= nt { sp } else { nt },
                rects, c.src, c.dst, -1i32, c.min_x, c.max_x, 80);
            lemma_clear_x_bound(right_x, if sp <= nt { sp } else { nt }, if sp >= nt { sp } else { nt },
                rects, c.src, c.dst, 1i32, c.min_x, c.max_x, 80);
        },
        CandKind::Main => {},
    }
}

fn push_grid(cands: &mut Vec<Vec<Pt>>, kind: CandKind, sps: &[i32], nts: &[i32], c: RouteCtx, rects: &[Rect])
    requires ctx_ok(c), kind_ok(kind), vals_ok(sps@), vals_ok(nts@),
    ensures
        final(cands)@.map_values(|v: Vec<Pt>| v@)
            == old(cands)@.map_values(|v: Vec<Pt>| v@) + grid_cands(kind, sps@, nts@, c, rects@, sps@.len() as int),
{
    let ghost start = cands@.map_values(|v: Vec<Pt>| v@);
    let mut i: usize = 0;
    while i < sps.len()
        invariant
            ctx_ok(c), kind_ok(kind), vals_ok(sps@), vals_ok(nts@),
            i <= sps.len(),
            cands@.map_values(|v: Vec<Pt>| v@) == start + grid_cands(kind, sps@, nts@, c, rects@, i as int),
        decreases sps.len() - i,
    {
        let sp = sps[i];
        let mut j: usize = 0;
        while j < nts.len()
            invariant
                ctx_ok(c), kind_ok(kind), vals_ok(sps@), vals_ok(nts@),
                i < sps.len(),
                sp == sps@[i as int],
                mid_ok(sp as int),
                j <= nts.len(),
                cands@.map_values(|v: Vec<Pt>| v@) == start + grid_cands(kind, sps@, nts@, c, rects@, i as int)
                    + row_cands(kind, sp, nts@, c, rects@, j as int),
            decreases nts.len() - j,
        {
            let mut more = pair_cands(kind, sp, nts[j], c, rects);
            let ghost before = cands@;
            cands.append(&mut more);
            assert(cands@.map_values(|v: Vec<Pt>| v@) =~= before.map_values(|v: Vec<Pt>| v@)
                + spec_pair_cands(kind, sp, nts@[j as int], c, rects@));
            j += 1;
            assert(cands@.map_values(|v: Vec<Pt>| v@) =~= start + grid_cands(kind, sps@, nts@, c, rects@, i as int)
                + row_cands(kind, sp, nts@, c, rects@, j as int));
        }
        i += 1;
        assert(cands@.map_values(|v: Vec<Pt>| v@) =~= start + grid_cands(kind, sps@, nts@, c, rects@, i as int));
    }
}

fn split_vals(split_y: i32, off: i32, sy: i32) -> (v: Vec<i32>)
    requires small(split_y as int), -0x2_0000 <= off <= 0x2_0000, -0x6_0000 <= sy <= 0x6_0000,
    ensures v@ == spec_split_vals(split_y as int, off as int, sy as int), vals_ok(v@), v@.len() == 4,
{
    let a = max_i32(snap_y(split_y + off), sy + 12);
    let b = max_i32(snap_y(split_y + off + MIN_LINE_GAP), sy + 12);
    let lower = split_y + off - MIN_LINE_GAP;
    let c = max_i32(snap_y(lower), sy + 12);
    let d = max_i32(snap_y(split_y), sy + 12);
    let v = vec![a, b, c, d];
    assert(v@ =~= spec_split_vals(split_y as int, off as int, sy as int));
    v
}

fn near_vals(ty: i32, dst_side: Side) -> (v: Vec<i32>)
    requires small(ty as int),
    ensures v@ == spec_near_vals(ty as int, dst_side), vals_ok(v@), v@.len() >= 1,
{
    let near_t = snap_y(ty - 26);
    let above = near_t - MIN_LINE_GAP;
    let n1 = snap_y(above);
    let n2 = snap_y(near_t + MIN_LINE_GAP);
    let all = vec![near_t, n1, n2];
    let ghost alls = seq![near_t, n1, n2];
    assert(vals_ok(alls));
    assert(all@ =~= alls);
    if matches!(dst_side, Side::Left) || matches!(dst_side, Side::Right) {
        let v = vec![ty];
        assert(v@ =~= spec_near_vals(ty as int, dst_side));
        return v;
    }
    let is_top = matches!(dst_side, Side::Top);
    let is_bottom = matches!(dst_side, Side::Bottom);
    if !is_top && !is_bottom {
        assert(all@ =~= spec_near_vals(ty as int, dst_side));
        return all;
    }
    let mut f: Vec<i32> = Vec::new();
    let mut k: usize = 0;
    while k < 3
        invariant
            k <= 3,
            all@ == alls,
            alls.len() == 3,
            vals_ok(alls),
            small(ty as int),
            is_top == (dst_side == Side::Top),
            is_bottom == (dst_side == Side::Bottom),
            is_top || is_bottom,
            is_top ==> f@ == alls.take(k as int).filter(|v: i32| v <= ty - MIN_TOP_ENTRY_LEN),
            !is_top ==> f@ == alls.take(k as int).filter(|v: i32| v > ty),
            vals_ok(f@),
        decreases 3 - k,
    {
        let x = all[k];
        assert(alls.take(k + 1).drop_last() =~= alls.take(k as int));
        proof {
            reveal_with_fuel(Seq::<_>::filter, 1);
        }
        if (is_top && x <= ty - MIN_TOP_ENTRY_LEN) || (!is_top && x > ty) {
            f.push(x);
        }
        k += 1;
    }
    assert(alls.take(3) =~= alls);
    if f.len() == 0 {
        let entry = if is_top { ty - MIN_TOP_ENTRY_LEN } else { ty + 30 };
        let v = vec![entry];
        assert(v@ =~= spec_near_vals(ty as int, dst_side));
        return v;
    }
    f
}

pub open spec fn lane_offsets() -> Seq<i32> {
    seq![0i32, 60i32, -60i32, 120i32, -120i32, 180i32, -180i32]
}

pub open spec fn lane_kind(side_lane: i32, lane_off: i32, c: RouteCtx) -> CandKind {
    let lane_x = clamp(side_lane + lane_off, c.min_x as int, c.max_x as int) as i32;
    let dir: i32 = if lane_x <= imin(c.sx as int, c.tx as int) { -1i32 } else { 1i32 };
    CandKind::Lane(lane_x, dir)
}

pub open spec fn lanes_cands(side_lane: i32, sps: Seq<i32>, nts: Seq<i32>, c: RouteCtx, rects: Seq<Rect>, k: int) -> Seq<Seq<Pt>>
    decreases k,
{
    if k <= 0 {
        Seq::empty()
    } else {
        lanes_cands(side_lane, sps, nts, c, rects, k - 1)
            + grid_cands(lane_kind(side_lane, lane_offsets()[k - 1], c), sps, nts, c, rects, sps.len() as int)
    }
}

pub open spec fn pad_kind(pad: int, c: RouteCtx) -> CandKind {
    CandKind::Pad(imax(c.min_x as int, imin(c.sx as int, c.tx as int) - pad) as i32,
        imin(c.max_x as int, imax(c.sx as int, c.tx as int) + pad) as i32)
}

pub open spec fn pads_cands(side_pad: int, sps: Seq<i32>, nts: Seq<i32>, c: RouteCtx, rects: Seq<Rect>, k: int) -> Seq<Seq<Pt>>
    decreases k,
{
    if k <= 0 {
        Seq::empty()
    } else {
        pads_cands(side_pad, sps, nts, c, rects, k - 1)
            + grid_cands(pad_kind(side_pad + 120 * (k - 1), c), sps, nts, c, rects, sps.len() as int)
    }
}

/// All candidate paths from the exit point `(sx, sy)` to the target, in the
/// order they are generated: direct routes, routes through the preferred
/// side lane (when given), then routes around all nodes at three widths.
pub open spec fn spec_all_cands(c: RouteCtx, sps: Seq<i32>, nts: Seq<i32>, side_lane_x: Option<i32>, rects: Seq<Rect>) -> Seq<Seq<Pt>> {
    let main = if c.sx == c.tx {
        seq![seq![(c.sx, c.sy), (c.tx, c.ty)]]
    } else {
        grid_cands(CandKind::Main, sps, nts, c, rects, sps.len() as int)
    };
    let lanes = match side_lane_x {
        Some(sl) => lanes_cands(sl, sps, nts, c, rects, 7),
        None => Seq::empty(),
    };
    let side_pad = 180 + imin(280, tdiv(iabs(c.tx - c.sx), 2)) + tdiv(iabs(c.off as int), 2);
    main + lanes + pads_cands(side_pad, sps, nts, c, rects, 3)
}

pub open spec fn spec_route_ctx(src: usize, dst: usize, off: int, start: (int, int, Seq<Pt>), force_center: bool,
    prefer_side: Option<Side>, tx_override: Pt, dst_side: Side, bounds: (i32, i32)) -> RouteCtx {
    RouteCtx {
        sx: start.0 as i32, sy: start.1 as i32, tx: tx_override.0, ty: tx_override.1, off: off as i32,
        dst_side, force_center, prefer_side, src, dst, min_x: bounds.0, max_x: bounds.1,
    }
}

/// The last-resort route used when no candidate enters the target from the
/// required direction.
pub open spec fn spec_fallback(c: RouteCtx) -> Seq<Pt> {
    if c.dst_side == Side::Top {
        let entry_y = imin(c.sy as int, c.ty - MIN_TOP_ENTRY_LEN) as i32;
        seq![(c.sx, c.sy), (c.sx, entry_y), (c.tx, entry_y), (c.tx, c.ty)]
    } else if c.dst_side == Side::Bottom {
        let entry_y = imax(c.sy as int, c.ty + 26) as i32;
        seq![(c.sx, c.sy), (c.sx, entry_y), (c.tx, entry_y), (c.tx, c.ty)]
    } else {
        seq![(c.sx, c.sy), (c.tx, c.sy), (c.tx, c.ty)]
    }
}

/// The candidates handed to `choose_best_path`: every generated route,
/// prefixed with the exit stub and simplified, that enters the target from
/// the required direction; or, if none does, the simplified fallback.
pub open spec fn spec_final_cands(all: Seq<Seq<Pt>>, prefix: Seq<Pt>, c: RouteCtx) -> Seq<Seq<Pt>> {
    let patched = all.map_values(|p: Seq<Pt>| spec_simplify_path(prefix + p.drop_first()));
    let ok = patched.filter(|p: Seq<Pt>| spec_terminal_dir_ok(p, c.dst_side));
    if ok.len() == 0 { seq![spec_simplify_path(spec_fallback(c))] } else { ok }
}

pub open spec fn spec_route_cands(
    src_id: usize, dst_id: usize, rects: Seq<Rect>, out_idx: i32, out_count: i32, src_split_y: i32,
    force_center: bool, prefer_side: Option<Side>, sx_override: Pt, tx_override: Pt, src_side: Side,
    dst_side: Side, side_lane_x: Option<i32>, bounds: (i32, i32),
) -> Seq<Seq<Pt>> {
    let off = spec_offset(out_idx as int, out_count as int);
    let start = spec_route_start(src_side, sx_override, off, out_count as int);
    let c = spec_route_ctx(src_id, dst_id, off, start, force_center, prefer_side, tx_override, dst_side, bounds);
    let sps = spec_split_vals(src_split_y as int, off, start.1);
    let nts = spec_near_vals(tx_override.1 as int, dst_side);
    spec_final_cands(spec_all_cands(c, sps, nts, side_lane_x, rects), start.2, c)
}

pub open spec fn route_inputs_ok(out_idx: i32, out_count: i32, src_split_y: i32, sx_override: Pt, tx_override: Pt,
    side_lane_x: Option<i32>, bounds: (i32, i32)) -> bool {
    &&& -0x400 <= out_idx <= 0x400
    &&& -0x400 <= out_count <= 0x400
    &&& small(src_split_y as int)
    &&& small_pt(sx_override)
    &&& small_pt(tx_override)
    &&& (side_lane_x is Some ==> small(side_lane_x->0 as int))
    &&& small(bounds.0 as int) && small(bounds.1 as int)
}

fn copy_route(p: &[Pt]) -> (v: Vec<Pt>)
    ensures v@ == p@,
{
    crate::path::copy_path(p)
}

/// Builds every candidate of `spec_all_cands`, in order.
fn build_all_cands(c: RouteCtx, sps: &Vec<i32>, nts: &Vec<i32>, side_lane_x: Option<i32>, rects: &[Rect])
    -> (cands: Vec<Vec<Pt>>)
    requires
        ctx_ok(c), vals_ok(sps@), vals_ok(nts@),
        side_lane_x is Some ==> small(side_lane_x->0 as int),
    ensures
        cands@.map_values(|v: Vec<Pt>| v@) == spec_all_cands(c, sps@, nts@, side_lane_x, rects@),
        all_shape_ok(spec_all_cands(c, sps@, nts@, side_lane_x, rects@), c),
{
    let (sx, sy, tx, ty, min_x, max_x) = (c.sx, c.sy, c.tx, c.ty, c.min_x, c.max_x);
    let mut cands: Vec<Vec<Pt>> = Vec::new();
    if sx == tx {
        cands.push(vec![(sx, sy), (tx, ty)]);
    } else {
        push_grid(&mut cands, CandKind::Main, sps, nts, c, rects);
    }
    assert(cands@.map_values(|v: Vec<Pt>| v@) =~= (if sx == tx {
        seq![seq![(sx, sy), (tx, ty)]]
    } else {
        grid_cands(CandKind::Main, sps@, nts@, c, rects@, sps@.len() as int)
    }));
    let ghost main = cands@.map_values(|v: Vec<Pt>| v@);
    if let Some(side_lane) = side_lane_x {
        let offs: [i32; 7] = [0, MIN_LINE_GAP, -MIN_LINE_GAP, 2 * MIN_LINE_GAP, -2 * MIN_LINE_GAP, 3 * MIN_LINE_GAP, -3 * MIN_LINE_GAP];
        assert(offs@ =~= lane_offsets());
        let mut k: usize = 0;
        while k < 7
            invariant
                k <= 7,
                offs@ == lane_offsets(),
                ctx_ok(c), vals_ok(sps@), vals_ok(nts@),
                small(side_lane as int),
                c.min_x == min_x, c.max_x == max_x, c.sx == sx, c.tx == tx,
                cands@.map_values(|v: Vec<Pt>| v@) == main + lanes_cands(side_lane, sps@, nts@, c, rects@, k as int),
            decreases 7 - k,
        {
            let lane_off = offs[k];
            let lane_x = max_i32(min_x, min_i32(max_x, side_lane + lane_off));
            let dir_sign: i32 = if lane_x <= min_i32(sx, tx) { -1 } else { 1 };
            assert(CandKind::Lane(lane_x, dir_sign) == lane_kind(side_lane, lane_offsets()[k as int], c));
            push_grid(&mut cands, CandKind::Lane(lane_x, dir_sign), sps, nts, c, rects);
            k += 1;
        }
    }
    let ghost with_lanes = cands@.map_values(|v: Vec<Pt>| v@);
    assert(with_lanes == main + (match side_lane_x {
        Some(sl) => lanes_cands(sl, sps@, nts@, c, rects@, 7),
        None => Seq::empty(),
    }));
    let span = abs_i32(tx - sx);
    let side_pad = 180 + min_i32(280, span / 2) + abs_i32(c.off) / 2;
    let mut k: i32 = 0;
    while k < 3
        invariant
            0 <= k <= 3,
            ctx_ok(c), vals_ok(sps@), vals_ok(nts@),
            c.min_x == min_x, c.max_x == max_x, c.sx == sx, c.tx == tx,
            side_pad == 180 + imin(280, tdiv(iabs(c.tx - c.sx), 2)) + tdiv(iabs(c.off as int), 2),
            0 <= side_pad <= 0x1_1000,
            cands@.map_values(|v: Vec<Pt>| v@) == with_lanes + pads_cands(side_pad as int, sps@, nts@, c, rects@, k as int),
        decreases 3 - k,
    {
        let pad = side_pad + 120 * k;
        let left_x = max_i32(min_x, min_i32(sx, tx) - pad);
        let right_x = min_i32(max_x, max_i32(sx, tx) + pad);
        assert(CandKind::Pad(left_x, right_x) == pad_kind(side_pad + 120 * k, c));
        push_grid(&mut cands, CandKind::Pad(left_x, right_x), sps, nts, c, rects);
        k += 1;
    }
    proof {
        lemma_all_shape(c, sps@, nts@, side_lane_x, rects@);
    }
    cands
}

/// Prefixes each candidate with the exit stub, simplifies it, and keeps those
/// that enter the target from the required side, in order.
fn patch_cands(cands: &Vec<Vec<Pt>>, start_prefix: &Vec<Pt>, base: Pt, c: RouteCtx) -> (dir_ok: Vec<Vec<Pt>>)
    requires
        all_shape_ok(cands@.map_values(|v: Vec<Pt>| v@), c),
        prefix_ok(start_prefix@, base, c),
    ensures
        dir_ok@.map_values(|v: Vec<Pt>| v@) == cands@.map_values(|v: Vec<Pt>| v@)
            .map_values(|p: Seq<Pt>| spec_simplify_path(start_prefix@ + p.drop_first()))
            .filter(|p: Seq<Pt>| spec_terminal_dir_ok(p, c.dst_side)),
        final_ok(dir_ok@.map_values(|v: Vec<Pt>| v@), (c.tx, c.ty)),
{
    let ghost all = cands@.map_values(|v: Vec<Pt>| v@);
    let ghost patched = all.map_values(|p: Seq<Pt>| spec_simplify_path(start_prefix@ + p.drop_first()));
    let mut dir_ok: Vec<Vec<Pt>> = Vec::new();
    let mut i: usize = 0;
    while i < cands.len()
        invariant
            i <= cands.len(),
            all == cands@.map_values(|v: Vec<Pt>| v@),
            all_shape_ok(all, c),
            prefix_ok(start_prefix@, base, c),
            patched == all.map_values(|p: Seq<Pt>| spec_simplify_path(start_prefix@ + p.drop_first())),
            dir_ok@.map_values(|v: Vec<Pt>| v@) == patched.take(i as int).filter(|p: Seq<Pt>| spec_terminal_dir_ok(p, c.dst_side)),
            final_ok(dir_ok@.map_values(|v: Vec<Pt>| v@), (c.tx, c.ty)),
        decreases cands.len() - i,
    {
        let mut z = copy_route(start_prefix);
        let p = &cands[i];
        assert(p@ == all[i as int]);
        assert(cand_shape_ok(all[i as int], c));
        let mut j: usize = 1;
        while j < p.len()
            invariant
                1 <= j <= p@.len(),
                z@ == start_prefix@ + p@.subrange(1, j as int),
            decreases p.len() - j,
        {
            z.push(p[j]);
            j += 1;
            assert(z@ =~= start_prefix@ + p@.subrange(1, j as int));
        }
        assert(p@.subrange(1, p@.len() as int) =~= p@.drop_first());
        let zs = simplify_path(&z);
        proof {
            lemma_patched_ok(start_prefix@, base, all[i as int], c, (c.tx, c.ty));
            assert(patched[i as int] == zs@);
            assert(patched.take(i + 1).drop_last() =~= patched.take(i as int));
            reveal_with_fuel(Seq::<_>::filter, 1);
        }
        let ghost before = dir_ok@.map_values(|v: Vec<Pt>| v@);
        if terminal_dir_ok_for_side(&zs, c.dst_side) {
            dir_ok.push(zs);
            assert(dir_ok@.map_values(|v: Vec<Pt>| v@) =~= before.push(patched[i as int]));
        } else {
            assert(dir_ok@.map_values(|v: Vec<Pt>| v@) =~= before);
        }
        i += 1;
    }
    assert(patched.take(cands.len() as int) =~= patched);
    dir_ok
}

/// The simplified fallback route as the single candidate.
fn fallback_cands(c: RouteCtx) -> (v: Vec<Vec<Pt>>)
    requires ctx_ok(c),
    ensures
        v@.map_values(|w: Vec<Pt>| w@) == seq![spec_simplify_path(spec_fallback(c))],
        final_ok(v@.map_values(|w: Vec<Pt>| w@), (c.tx, c.ty)),
{
    let (sx, sy, tx, ty) = (c.sx, c.sy, c.tx, c.ty);
    let fb = if matches!(c.dst_side, Side::Top) {
        let entry_y = min_i32(sy, ty - MIN_TOP_ENTRY_LEN);
        vec![(sx, sy), (sx, entry_y), (tx, entry_y), (tx, ty)]
    } else if matches!(c.dst_side, Side::Bottom) {
        let entry_y = max_i32(sy, ty + 26);
        vec![(sx, sy), (sx, entry_y), (tx, entry_y), (tx, ty)]
    } else {
        vec![(sx, sy), (tx, sy), (tx, ty)]
    };
    assert(fb@ == spec_fallback(c));
    assert(path_ok(fb@));
    assert(orthogonal(fb@));
    let s = simplify_path(&fb);
    proof { lemma_simplify_endpoints(fb@); lemma_simplify_orth(fb@); }
    let mut v: Vec<Vec<Pt>> = Vec::new();
    v.push(s);
    assert(v@.map_values(|w: Vec<Pt>| w@) =~= seq![spec_simplify_path(spec_fallback(c))]);
    v
}

/// Routes one edge from the port `sx_override` on side `src_side` of node
/// `src_id` to the port `tx_override` on side `dst_side` of node `dst_id`:
/// builds the candidate routes and returns the best by `choose_best_path`.
/// The result always ends at the target port.
pub fn route_edge_smart(
    src_id: usize,
    dst_id: usize,
    rects: &[Rect],
    existing: &[EdgePath],
    out_idx: i32,
    out_count: i32,
    src_split_y: i32,
    force_center: bool,
    prefer_side: Option<Side>,
    sx_override: Pt,
    tx_override: Pt,
    src_side: Side,
    dst_side: Side,
    side_lane_x: Option<i32>,
    bounds: (i32, i32),
) -> (path: Vec<Pt>)
    requires
        route_inputs_ok(out_idx, out_count, src_split_y, sx_override, tx_override, side_lane_x, bounds),
        rects_ok(rects@),
        rects@.len() <= 0x10_0000,
        edges_ok(existing@),
        total_pts(existing@, existing@.len() as int) <= 0x1_0000,
    ensures
        path@ == spec_choose_best(
            spec_route_cands(src_id, dst_id, rects@, out_idx, out_count, src_split_y, force_center, prefer_side,
                sx_override, tx_override, src_side, dst_side, side_lane_x, bounds),
            rects@, src_id, dst_id, existing@),
        path@.len() > 0,
        path@.len() <= 0x100,
        path@.last() == tx_override,
        path_ok(path@),
        orthogonal(path@),
{
    let off = (2 * out_idx - out_count + 1) * 30;
    let (sx, sy, start_prefix) = route_start(src_side, sx_override, off, out_count);
    let (tx, ty) = tx_override;
    let (min_x, max_x) = bounds;
    let c = RouteCtx {
        sx, sy, tx, ty, off, dst_side, force_center, prefer_side, src: src_id, dst: dst_id, min_x, max_x,
    };
    let ghost start = spec_route_start(src_side, sx_override, off as int, out_count as int);
    assert(c == spec_route_ctx(src_id, dst_id, off as int, start, force_center, prefer_side, tx_override, dst_side, bounds));
    let sps = split_vals(src_split_y, off, sy);
    let nts = near_vals(ty, dst_side);
    let cands = build_all_cands(c, &sps, &nts, side_lane_x, rects);
    let dir_ok = patch_cands(&cands, &start_prefix, sx_override, c);
    let final_cands = if dir_ok.len() == 0 { fallback_cands(c) } else { dir_ok };
    let ghost fc = final_cands@.map_values(|v: Vec<Pt>| v@);
    assert(fc == spec_final_cands(spec_all_cands(c, sps@, nts@, side_lane_x, rects@), start.2, c));
    proof {
        lemma_choose_best_member(fc, rects@, src_id, dst_id, existing@);
        let r = spec_choose_best(fc, rects@, src_id, dst_id, existing@);
        let q = choose|q: int| 0 <= q < fc.len() && r == spec_simplify_path(#[trigger] fc[q]);
        lemma_simplify_endpoints(fc[q]);
        lemma_simplify_orth(fc[q]);
    }
    choose_best_path(final_cands, rects, src_id, dst_id, existing)
}

/// The exit stub starts at the source port and ends at the exit point.
pub open spec fn prefix_ok(prefix: Seq<Pt>, base: Pt, c: RouteCtx) -> bool {
    path_ok(prefix) && 2 <= prefix.len() <= 3 && prefix[0] == base && prefix.last() == (c.sx, c.sy) && orthogonal(prefix)
}

/// Final candidates are short, within bounds, and end at the target port.
pub open spec fn final_ok(fc: Seq<Seq<Pt>>, target: Pt) -> bool {
    forall|i: int| 0 <= i < fc.len() ==> path_ok(#[trigger] fc[i]) && fc[i].len() <= 0x100 && fc[i].len() > 0
        && fc[i].last() == target && orthogonal(fc[i])
}

proof fn lemma_patched_ok(prefix: Seq<Pt>, base: Pt, p: Seq<Pt>, c: RouteCtx, target: Pt)
    requires prefix_ok(prefix, base, c), cand_shape_ok(p, c), target == (c.tx, c.ty),
    ensures ({
        let z = spec_simplify_path(prefix + p.drop_first());
        path_ok(z) && z.len() <= 0x100 && z.len() > 0 && z.last() == target && orthogonal(z)
    }),
{
    let w = prefix + p.drop_first();
    assert(orthogonal(w)) by {
        assert forall|i: int| 0 <= i < w.len() - 1 implies #[trigger] step_orth(w[i], w[i + 1]) by {
            let k = i - prefix.len() + 1;
            if i < prefix.len() - 1 {
                assert(w[i] == prefix[i] && w[i + 1] == prefix[i + 1]);
                assert(step_orth(prefix[i], prefix[i + 1]));
            } else if i == prefix.len() - 1 {
                assert(w[i] == p[0] && w[i + 1] == p[1]);
                assert(step_orth(p[0], p[1]));
            } else {
                assert(w[i] == p[k] && w[i + 1] == p[k + 1]);
                assert(step_orth(p[k], p[k + 1]));
            }
        }
    }
    lemma_simplify_orth(w);
    assert(path_ok(w)) by {
        assert forall|i: int| 0 <= i < w.len() implies pt_ok(#[trigger] w[i]) by {
            if i < prefix.len() { assert(w[i] == prefix[i]); } else { assert(w[i] == p[i - prefix.len() + 1]); }
        }
    }
    assert(w.last() == p.last());
    lemma_simplify_endpoints(w);
}

proof fn lemma_all_shape(c: RouteCtx, sps: Seq<i32>, nts: Seq<i32>, side_lane_x: Option<i32>, rects: Seq<Rect>)
    requires ctx_ok(c), vals_ok(sps), vals_ok(nts), side_lane_x is Some ==> small(side_lane_x->0 as int),
    ensures all_shape_ok(spec_all_cands(c, sps, nts, side_lane_x, rects), c),
{
    let main = if c.sx == c.tx {
        seq![seq![(c.sx, c.sy), (c.tx, c.ty)]]
    } else {
        grid_cands(CandKind::Main, sps, nts, c, rects, sps.len() as int)
    };
    if c.sx != c.tx {
        lemma_grid_shape(CandKind::Main, sps, nts, c, rects, sps.len() as int);
    } else {
        assert(cand_shape_ok(main[0], c));
    }
    let lanes = match side_lane_x {
        Some(sl) => lanes_cands(sl, sps, nts, c, rects, 7),
        None => Seq::empty(),
    };
    if let Some(sl) = side_lane_x {
        lemma_lanes_shape(sl, sps, nts, c, rects, 7);
    }
    let side_pad = 180 + imin(280, tdiv(iabs(c.tx - c.sx), 2)) + tdiv(iabs(c.off as int), 2);
    lemma_pads_shape(side_pad, sps, nts, c, rects, 3);
    lemma_all_shape_concat(main, lanes, c);
    lemma_all_shape_concat(main + lanes, pads_cands(side_pad, sps, nts, c, rects, 3), c);
}

proof fn lemma_lanes_shape(sl: i32, sps: Seq<i32>, nts: Seq<i32>, c: RouteCtx, rects: Seq<Rect>, k: int)
    requires ctx_ok(c), vals_ok(sps), vals_ok(nts), small(sl as int), 0 <= k <= 7,
    ensures all_shape_ok(lanes_cands(sl, sps, nts, c, rects, k), c),
    decreases k,
{
    if k > 0 {
        lemma_lanes_shape(sl, sps, nts, c, rects, k - 1);
        let kind = lane_kind(sl, lane_offsets()[k - 1], c);
        assert(kind_ok(kind));
        lemma_grid_shape(kind, sps, nts, c, rects, sps.len() as int);
        lemma_all_shape_concat(lanes_cands(sl, sps, nts, c, rects, k - 1), grid_cands(kind, sps, nts, c, rects, sps.len() as int), c);
    }
}

proof fn lemma_pads_shape(side_pad: int, sps: Seq<i32>, nts: Seq<i32>, c: RouteCtx, rects: Seq<Rect>, k: int)
    requires ctx_ok(c), vals_ok(sps), vals_ok(nts), 0 <= side_pad <= 0x1_1000, 0 <= k <= 3,
    ensures all_shape_ok(pads_cands(side_pad, sps, nts, c, rects, k), c),
    decreases k,
{
    if k > 0 {
        lemma_pads_shape(side_pad, sps, nts, c, rects, k - 1);
        let kind = pad_kind(side_pad + 120 * (k - 1), c);
        assert(kind_ok(kind));
        lemma_grid_shape(kind, sps, nts, c, rects, sps.len() as int);
        lemma_all_shape_concat(pads_cands(side_pad, sps, nts, c, rects, k - 1), grid_cands(kind, sps, nts, c, rects, sps.len() as int), c);
    }
}

} // verus!
