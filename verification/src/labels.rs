//! Where edge labels go: sibling edges that share a trunk get their labels
//! on their own diverging runs, and a label box is moved until it clears
//! the nodes and the labels already placed.
use vstd::prelude::*;
use crate::geometry::{Pt, Rect, tdiv, pt_ok, path_ok};
use crate::path::{EdgePath, common_prefix_points};
use crate::routing::edges_ok;

verus! {

/// Length of the common prefix of `a` and `b` from position `k` on.
pub open spec fn cp_from(a: Seq<Pt>, b: Seq<Pt>, k: int) -> int
    decreases a.len() - k,
{
    if 0 <= k < a.len() && k < b.len() && a[k] == b[k] { cp_from(a, b, k + 1) } else { k }
}

pub open spec fn common_prefix(a: Seq<Pt>, b: Seq<Pt>) -> int {
    cp_from(a, b, 0)
}

proof fn lemma_cp_from(a: Seq<Pt>, b: Seq<Pt>, k: int, r: int)
    requires
        0 <= k <= r, r <= a.len(), r <= b.len(),
        forall|i: int| k <= i < r ==> a[i] == b[i],
        r < a.len() && r < b.len() ==> a[r] != b[r],
    ensures cp_from(a, b, k) == r,
    decreases r - k,
{
    if k < r {
        lemma_cp_from(a, b, k + 1, r);
    }
}

pub open spec fn first_pt(p: Seq<Pt>) -> Option<Pt> {
    if p.len() > 0 { Some(p[0]) } else { None }
}

/// Edges `i` and `j` leave the same node from the same point and share at
/// least one segment before they part.
pub open spec fn siblings_split(ps: Seq<EdgePath>, i: int, j: int) -> bool {
    let a = ps[i].path@;
    let b = ps[j].path@;
    let cp = common_prefix(a, b);
    ps[i].from == ps[j].from && first_pt(a) == first_pt(b) && cp >= 2 && cp < a.len() && cp < b.len()
}

/// A label anchor on a branch: the point, and whether it sits by a
/// horizontal run (else a vertical one).
#[derive(Debug, Clone, Copy, PartialEq, Eq, Structural)]
pub struct BranchAnchor {
    pub x: i32,
    pub y: i32,
    pub horizontal: bool,
}

/// The anchor on the first run after the split: above a horizontal run,
/// right of a vertical one (`first`); below it, or left of it, for the
/// other branch.
pub open spec fn split_anchor(p: Seq<Pt>, cp: int, first: bool) -> BranchAnchor {
    let a0 = p[cp - 1];
    let a1 = p[cp];
    if a0.1 == a1.1 {
        BranchAnchor { x: tdiv(a0.0 + a1.0, 2) as i32, y: (if first { a0.1 - 22 } else { a0.1 + 22 }) as i32, horizontal: true }
    } else {
        BranchAnchor { x: (if first { a0.0 + 22 } else { a0.0 - 22 }) as i32, y: (tdiv(a0.1 + a1.1, 2) - 8) as i32, horizontal: false }
    }
}

/// The last later sibling `j < hi` that parts from edge `k`.
pub open spec fn find_later(ps: Seq<EdgePath>, k: int, hi: int) -> Option<int>
    decreases hi - k,
{
    if hi <= k + 1 { None } else if siblings_split(ps, k, hi - 1) { Some(hi - 1) } else { find_later(ps, k, hi - 1) }
}

/// The last earlier sibling `i < hi` that parts from edge `k`.
pub open spec fn find_earlier(ps: Seq<EdgePath>, k: int, hi: int) -> Option<int>
    decreases hi,
{
    if hi <= 0 { None } else if siblings_split(ps, hi - 1, k) { Some(hi - 1) } else { find_earlier(ps, k, hi - 1) }
}

/// The anchor of edge `k`'s label when it parts from a sibling: paired
/// with the last later sibling it is the first branch; failing that, with
/// the last earlier sibling it is the second.
pub open spec fn spec_branch_anchor(ps: Seq<EdgePath>, k: int) -> Option<BranchAnchor> {
    match find_later(ps, k, ps.len() as int) {
        Some(j) => Some(split_anchor(ps[k].path@, common_prefix(ps[k].path@, ps[j].path@), true)),
        None => match find_earlier(ps, k, k) {
            Some(i) => Some(split_anchor(ps[k].path@, common_prefix(ps[i].path@, ps[k].path@), false)),
            None => None,
        },
    }
}

fn split_of(ps: &[EdgePath], i: usize, j: usize) -> (r: Option<usize>)
    requires i < ps@.len(), j < ps@.len(),
    ensures
        r is Some <==> siblings_split(ps@, i as int, j as int),
        r matches Some(cp) ==> cp == common_prefix(ps@[i as int].path@, ps@[j as int].path@),
{
    let a = &ps[i].path;
    let b = &ps[j].path;
    let cp = common_prefix_points(a, b);
    proof { lemma_cp_from(a@, b@, 0, cp as int); }
    let same_first = if a.len() > 0 && b.len() > 0 {
        a[0].0 == b[0].0 && a[0].1 == b[0].1
    } else {
        a.len() == 0 && b.len() == 0
    };
    if ps[i].from == ps[j].from && same_first && cp >= 2 && cp < a.len() && cp < b.len() {
        Some(cp)
    } else {
        None
    }
}

fn anchor_at(p: &Vec<Pt>, cp: usize, first: bool) -> (r: BranchAnchor)
    requires 1 <= cp < p@.len(), path_ok(p@),
    ensures r == split_anchor(p@, cp as int, first),
{
    let a0 = p[cp - 1];
    let a1 = p[cp];
    proof { assert(pt_ok(p@[cp - 1]) && pt_ok(p@[cp as int])); }
    if a0.1 == a1.1 {
        BranchAnchor { x: (a0.0 + a1.0) / 2, y: if first { a0.1 - 22 } else { a0.1 + 22 }, horizontal: true }
    } else {
        BranchAnchor { x: if first { a0.0 + 22 } else { a0.0 - 22 }, y: (a0.1 + a1.1) / 2 - 8, horizontal: false }
    }
}

/// The branch anchor of every edge's label (`spec_branch_anchor`).
pub fn branch_anchors(ps: &[EdgePath]) -> (r: Vec<Option<BranchAnchor>>)
    requires edges_ok(ps@),
    ensures
        r@.len() == ps@.len(),
        forall|k: int| 0 <= k < r@.len() ==> #[trigger] r@[k] == spec_branch_anchor(ps@, k),
{
    let m = ps.len();
    let mut out: Vec<Option<BranchAnchor>> = Vec::new();
    let mut k: usize = 0;
    while k < m
        invariant
            k <= m, m == ps@.len(), edges_ok(ps@), out@.len() == k,
            forall|q: int| 0 <= q < k ==> #[trigger] out@[q] == spec_branch_anchor(ps@, q),
        decreases m - k,
    {
        let mut found: Option<BranchAnchor> = None;
        let mut hi: usize = m;
        while hi > k + 1 && found.is_none()
            invariant
                k < m, m == ps@.len(), k + 1 <= hi <= m, edges_ok(ps@),
                found is None ==> find_later(ps@, k as int, m as int) == find_later(ps@, k as int, hi as int),
                found matches Some(a) ==> find_later(ps@, k as int, m as int) == Some(hi as int)
                    && a == split_anchor(ps@[k as int].path@, common_prefix(ps@[k as int].path@, ps@[hi as int].path@), true),
            decreases hi,
        {
            if let Some(cp) = split_of(ps, k, hi - 1) {
                proof { assert(path_ok(ps@[k as int].path@)); }
                found = Some(anchor_at(&ps[k].path, cp, true));
            }
            hi -= 1;
        }
        if found.is_none() {
            let mut lo: usize = k;
            let mut got: Option<BranchAnchor> = None;
            while lo > 0 && got.is_none()
                invariant
                    k < m, m == ps@.len(), lo <= k, edges_ok(ps@),
                    got is None ==> find_earlier(ps@, k as int, k as int) == find_earlier(ps@, k as int, lo as int),
                    got matches Some(a) ==> find_earlier(ps@, k as int, k as int) == Some(lo as int)
                        && a == split_anchor(ps@[k as int].path@, common_prefix(ps@[lo as int].path@, ps@[k as int].path@), false),
                decreases lo,
            {
                if let Some(cp) = split_of(ps, lo - 1, k) {
                    proof { assert(path_ok(ps@[k as int].path@)); }
                    got = Some(anchor_at(&ps[k].path, cp, false));
                }
                lo -= 1;
            }
            found = got;
        }
        out.push(found);
        k += 1;
    }
    out
}

/// A label box `(x1, y1, x2, y2)` around a `lw` by `lh` text whose top
/// centre is `(x, y)`, with a 2 px margin.
pub open spec fn label_box(x: int, y: int, lw: int, lh: int) -> (int, int, int, int) {
    (x - lw / 2 - 2, y - 2, x + lw / 2 + 2, y + lh + 2)
}

/// The box shifted, first sideways then up or down, to stay 8 px inside
/// the `w` by `h` canvas.
pub open spec fn clamp_box(b: (int, int, int, int), w: int, h: int) -> (int, int, int, int) {
    let b1 = if b.0 < 8 { (8, b.1, b.2 + (8 - b.0), b.3) } else { b };
    let b2 = if b1.2 > w - 8 { (b1.0 - (b1.2 - (w - 8)), b1.1, w - 8, b1.3) } else { b1 };
    let b3 = if b2.1 < 8 { (b2.0, 8, b2.2, b2.3 + (8 - b2.1)) } else { b2 };
    if b3.3 > h - 8 { (b3.0, b3.1 - (b3.3 - (h - 8)), b3.2, h - 8) } else { b3 }
}

pub open spec fn boxes_overlap(a: (int, int, int, int), r: Rect) -> bool {
    a.0 < r.2 && a.2 > r.0 && a.1 < r.3 && a.3 > r.1
}

/// Whether the box overlaps a label already placed or a node.
pub open spec fn box_blocked(a: (int, int, int, int), used: Seq<Rect>, rects: Seq<Rect>) -> bool {
    (exists|i: int| 0 <= i < used.len() && #[trigger] boxes_overlap(a, used[i]))
        || (exists|i: int| 0 <= i < rects.len() && #[trigger] boxes_overlap(a, rects[i]))
}

/// The offsets tried around a branch anchor, nearest first.
pub open spec fn nudge(t: int) -> int {
    if t % 2 == 1 { -12 * ((t + 1) / 2) } else { 12 * (t / 2) }
}

pub open spec fn nudged_box(a: BranchAnchor, t: int, lw: int, lh: int, w: int, h: int) -> (int, int, int, int) {
    let d = nudge(t);
    let (cx, cy) = if a.horizontal { (a.x as int, a.y + d) } else { (a.x + d, a.y as int) };
    clamp_box(label_box(cx, cy, lw, lh), w, h)
}

/// The first of the nine nudged boxes, from `t` on, that is not blocked.
pub open spec fn first_free(a: BranchAnchor, t: int, lw: int, lh: int, w: int, h: int, used: Seq<Rect>, rects: Seq<Rect>)
    -> Option<(int, int, int, int)>
    decreases 9 - t,
{
    if t >= 9 || t < 0 {
        None
    } else if !box_blocked(nudged_box(a, t, lw, lh, w, h), used, rects) {
        Some(nudged_box(a, t, lw, lh, w, h))
    } else {
        first_free(a, t + 1, lw, lh, w, h, used, rects)
    }
}

/// Slides a blocked box down 14 px at a time, at most `n` times, keeping
/// it above the bottom margin.
pub open spec fn slide(b: (int, int, int, int), n: int, lh: int, h: int, used: Seq<Rect>, rects: Seq<Rect>) -> (int, int, int, int)
    decreases n,
{
    if n <= 0 || !box_blocked(b, used, rects) {
        b
    } else {
        let moved = (b.0, b.1 + 14, b.2, b.3 + 14);
        let kept = if moved.3 > h - 8 { (moved.0, (h - 8) - (lh + 8), moved.2, h - 8) } else { moved };
        slide(kept, n - 1, lh, h, used, rects)
    }
}

/// Where a `lw` by `lh` label goes. On a branch anchor: the first of the
/// nudged positions that overlaps nothing, else right at the anchor.
/// Otherwise at `(x, y)` (17 px lower for an `elseif` label), kept inside
/// the canvas and slid down until it overlaps nothing (at most 20 steps).
pub open spec fn spec_place_label(
    x: int, y: int, elseif: bool, special: Option<BranchAnchor>, lw: int, lh: int, w: int, h: int,
    used: Seq<Rect>, rects: Seq<Rect>,
) -> (int, int, int, int) {
    match special {
        Some(a) => match first_free(a, 0, lw, lh, w, h, used, rects) {
            Some(b) => b,
            None => label_box(a.x as int, a.y as int, lw, lh),
        },
        None => {
            let y2 = if elseif { y + 17 } else { y };
            slide(clamp_box(label_box(x, y2, lw, lh), w, h), 20, lh, h, used, rects)
        },
    }
}

pub open spec fn tiny(v: int) -> bool {
    -0x4_0000 <= v <= 0x4_0000
}

pub open spec fn label_inputs_ok(x: int, y: int, special: Option<BranchAnchor>, lw: int, lh: int, w: int, h: int) -> bool {
    &&& tiny(x) && tiny(y) && 0 <= lw <= 0x4_0000 && 0 <= lh <= 0x4_0000 && tiny(w) && tiny(h)
    &&& special matches Some(a) ==> tiny(a.x as int) && tiny(a.y as int)
}

fn blocked_exec(b: (i64, i64, i64, i64), used: &[Rect], rects: &[Rect]) -> (r: bool)
    ensures r == box_blocked((b.0 as int, b.1 as int, b.2 as int, b.3 as int), used@, rects@),
{
    let ghost bb = (b.0 as int, b.1 as int, b.2 as int, b.3 as int);
    let mut i: usize = 0;
    while i < used.len()
        invariant
            i <= used@.len(), forall|q: int| 0 <= q < i ==> !#[trigger] boxes_overlap(bb, used@[q]),
            bb == (b.0 as int, b.1 as int, b.2 as int, b.3 as int),
        decreases used@.len() - i,
    {
        let r = used[i];
        if b.0 < r.2 as i64 && b.2 > r.0 as i64 && b.1 < r.3 as i64 && b.3 > r.1 as i64 {
            assert(boxes_overlap(bb, used@[i as int]));
            return true;
        }
        i += 1;
    }
    let mut i: usize = 0;
    while i < rects.len()
        invariant
            i <= rects@.len(), forall|q: int| 0 <= q < i ==> !#[trigger] boxes_overlap(bb, rects@[q]),
            bb == (b.0 as int, b.1 as int, b.2 as int, b.3 as int),
            forall|q: int| 0 <= q < used@.len() ==> !#[trigger] boxes_overlap(bb, used@[q]),
        decreases rects@.len() - i,
    {
        let r = rects[i];
        if b.0 < r.2 as i64 && b.2 > r.0 as i64 && b.1 < r.3 as i64 && b.3 > r.1 as i64 {
            assert(boxes_overlap(bb, rects@[i as int]));
            return true;
        }
        i += 1;
    }
    false
}

fn clamp_exec(b: (i64, i64, i64, i64), w: i64, h: i64) -> (r: (i64, i64, i64, i64))
    requires
        -0x10_0000 <= b.0 <= 0x10_0000, -0x10_0000 <= b.1 <= 0x10_0000,
        -0x10_0000 <= b.2 <= 0x10_0000, -0x10_0000 <= b.3 <= 0x10_0000,
        tiny(w as int), tiny(h as int),
    ensures
        (r.0 as int, r.1 as int, r.2 as int, r.3 as int) == clamp_box((b.0 as int, b.1 as int, b.2 as int, b.3 as int), w as int, h as int),
        -0x40_0000 <= r.0 <= 0x40_0000, -0x40_0000 <= r.1 <= 0x40_0000,
        -0x40_0000 <= r.2 <= 0x40_0000, -0x40_0000 <= r.3 <= 0x40_0000,
{
    let (mut x1, mut y1, mut x2, mut y2) = b;
    if x1 < 8 {
        let d = 8 - x1;
        x1 = x1 + d;
        x2 = x2 + d;
    }
    if x2 > w - 8 {
        let d = x2 - (w - 8);
        x1 = x1 - d;
        x2 = x2 - d;
    }
    if y1 < 8 {
        let d = 8 - y1;
        y1 = y1 + d;
        y2 = y2 + d;
    }
    if y2 > h - 8 {
        let d = y2 - (h - 8);
        y1 = y1 - d;
        y2 = y2 - d;
    }
    (x1, y1, x2, y2)
}

/// Places a label box (`spec_place_label`).
pub fn place_label(
    x: i32, y: i32, elseif: bool, special: Option<BranchAnchor>, lw: i32, lh: i32, w: i32, h: i32,
    used: &[Rect], rects: &[Rect],
) -> (r: (i64, i64, i64, i64))
    requires
        label_inputs_ok(x as int, y as int, special, lw as int, lh as int, w as int, h as int),
    ensures
        (r.0 as int, r.1 as int, r.2 as int, r.3 as int)
            == spec_place_label(x as int, y as int, elseif, special, lw as int, lh as int, w as int, h as int, used@, rects@),
{
    let hw = (lw / 2) as i64;
    match special {
        Some(a) => {
            let mut t: usize = 0;
            while t < 9
                invariant
                    t <= 9, label_inputs_ok(x as int, y as int, special, lw as int, lh as int, w as int, h as int),
                    special == Some(a), hw == lw / 2,
                    first_free(a, 0, lw as int, lh as int, w as int, h as int, used@, rects@)
                        == first_free(a, t as int, lw as int, lh as int, w as int, h as int, used@, rects@),
                decreases 9 - t,
            {
                let d: i64 = if t % 2 == 1 { -12 * (((t + 1) / 2) as i64) } else { 12 * ((t / 2) as i64) };
                assert(d == nudge(t as int));
                let (cx, cy) = if a.horizontal { (a.x as i64, a.y as i64 + d) } else { (a.x as i64 + d, a.y as i64) };
                let bx = clamp_exec((cx - hw - 2, cy - 2, cx + hw + 2, cy + lh as i64 + 2), w as i64, h as i64);
                assert((bx.0 as int, bx.1 as int, bx.2 as int, bx.3 as int) == nudged_box(a, t as int, lw as int, lh as int, w as int, h as int));
                if !blocked_exec(bx, used, rects) {
                    return bx;
                }
                t += 1;
            }
            assert(first_free(a, 9, lw as int, lh as int, w as int, h as int, used@, rects@) is None);
            assert(hw as int == (lw as int) / 2);
            let ax = a.x as i64;
            let ay = a.y as i64;
            (ax - hw - 2, ay - 2, ax + hw + 2, ay + lh as i64 + 2)
        },
        None => {
            let y2 = if elseif { y as i64 + 17 } else { y as i64 };
            let xx = x as i64;
            let mut b = clamp_exec((xx - hw - 2, y2 - 2, xx + hw + 2, y2 + lh as i64 + 2), w as i64, h as i64);
            let ghost b0 = (b.0 as int, b.1 as int, b.2 as int, b.3 as int);
            let mut n: usize = 20;
            let mut go = blocked_exec(b, used, rects);
            while n > 0 && go
                invariant
                    n <= 20, label_inputs_ok(x as int, y as int, special, lw as int, lh as int, w as int, h as int),
                    slide(b0, 20, lh as int, h as int, used@, rects@)
                        == slide((b.0 as int, b.1 as int, b.2 as int, b.3 as int), n as int, lh as int, h as int, used@, rects@),
                    go == box_blocked((b.0 as int, b.1 as int, b.2 as int, b.3 as int), used@, rects@),
                    -0x40_0000 - 14 * (20 - n) <= b.0 <= 0x40_0000, -0x40_0000 - 0x10_0000 <= b.1 <= 0x40_0000 + 14 * (20 - n),
                    -0x40_0000 <= b.2 <= 0x40_0000, -0x40_0000 - 0x10_0000 <= b.3 <= 0x40_0000 + 14 * (20 - n),
                decreases n,
            {
                let mut nb = (b.0, b.1 + 14, b.2, b.3 + 14);
                if nb.3 > h as i64 - 8 {
                    nb = (nb.0, (h as i64 - 8) - (lh as i64 + 8), nb.2, h as i64 - 8);
                }
                b = nb;
                n -= 1;
                go = blocked_exec(b, used, rects);
            }
            b
        },
    }
}

} // verus!
