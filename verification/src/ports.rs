//! Choosing the points on node boundaries where edges leave and enter.
use vstd::prelude::*;
use crate::geometry::{
    Pt, Rect, Side, Shape, tdiv, iabs, imin, imax, coord_ok, pt_ok, rect_ok, rects_ok, path_ok,
    spec_is_rect_like, is_rect_like, spec_seg_hits_rect, seg_hits_rect, min_i32, max_i32, abs_i32,
    pt_eq, MIN_TOP_ENTRY_LEN, MIN_LINE_GAP,
};
use crate::path::{pt_in, copy_path, lemma_contains_drop_last};
use crate::text::str_is;

verus! {

/// Candidate ports on one side of a node: the side's midpoint, plus the
/// quarter points of the top and bottom edges for rectangular shapes.
pub open spec fn spec_side_ports(r: Rect, shape: Shape, side: Side) -> Seq<Pt> {
    let cx = tdiv(r.0 + r.2, 2) as i32;
    let cy = tdiv(r.1 + r.3, 2) as i32;
    let w = r.2 - r.0;
    let q1 = (r.0 + tdiv(w, 4)) as i32;
    let q3 = (r.0 + tdiv(3 * w, 4)) as i32;
    match side {
        Side::Top => if spec_is_rect_like(shape) { seq![(cx, r.1), (q1, r.1), (q3, r.1)] } else { seq![(cx, r.1)] },
        Side::Bottom => if spec_is_rect_like(shape) { seq![(cx, r.3), (q1, r.3), (q3, r.3)] } else { seq![(cx, r.3)] },
        Side::Left => seq![(r.0, cy)],
        Side::Right => seq![(r.2, cy)],
        Side::Center => seq![(cx, cy)],
    }
}

pub fn side_port_candidates(rect: Rect, shape: Shape, side: Side) -> (pts: Vec<Pt>)
    requires rect_ok(rect),
    ensures pts@ == spec_side_ports(rect, shape, side),
{
    let (x1, y1, x2, y2) = rect;
    let cx = (x1 + x2) / 2;
    let cy = (y1 + y2) / 2;
    let w = x2 - x1;
    let mut pts: Vec<Pt> = Vec::new();
    match side {
        Side::Top => {
            pts.push((cx, y1));
            if is_rect_like(shape) {
                pts.push((x1 + w / 4, y1));
                pts.push((x1 + (3 * w) / 4, y1));
            }
        },
        Side::Bottom => {
            pts.push((cx, y2));
            if is_rect_like(shape) {
                pts.push((x1 + w / 4, y2));
                pts.push((x1 + (3 * w) / 4, y2));
            }
        },
        Side::Left => pts.push((x1, cy)),
        Side::Right => pts.push((x2, cy)),
        Side::Center => pts.push((cx, cy)),
    }
    assert(pts@ =~= spec_side_ports(rect, shape, side));
    pts
}

/// The side order used for leaving or entering a node: the preferred side
/// first, left before right when there is no preference.
pub open spec fn side_pair(prefer_side: Option<Side>) -> (Side, Side) {
    if prefer_side == Some(Side::Right) { (Side::Right, Side::Left) } else { (Side::Left, Side::Right) }
}

pub open spec fn spec_output_ports(r: Rect, shape: Shape, prefer_side: Option<Side>) -> Seq<Pt> {
    spec_side_ports(r, shape, Side::Bottom) + spec_side_ports(r, shape, side_pair(prefer_side).0)
        + spec_side_ports(r, shape, side_pair(prefer_side).1)
}

/// Candidate output ports: bottom first, then the two sides.
pub fn output_port_candidates(rect: Rect, shape: Shape, prefer_side: Option<Side>) -> (c: Vec<Pt>)
    requires rect_ok(rect),
    ensures c@ == spec_output_ports(rect, shape, prefer_side),
{
    let mut cands = side_port_candidates(rect, shape, Side::Bottom);
    let (first, second) = match prefer_side {
        Some(Side::Right) => (Side::Right, Side::Left),
        _ => (Side::Left, Side::Right),
    };
    let mut a = side_port_candidates(rect, shape, first);
    let mut b = side_port_candidates(rect, shape, second);
    cands.append(&mut a);
    cands.append(&mut b);
    cands
}

pub open spec fn spec_input_ports(r: Rect, shape: Shape, prefer_side: Option<Side>) -> Seq<Pt> {
    spec_side_ports(r, shape, Side::Top) + spec_side_ports(r, shape, side_pair(prefer_side).0)
        + spec_side_ports(r, shape, side_pair(prefer_side).1)
}

/// Candidate input ports: top first (centre before quarter points), then the
/// two sides.
pub fn input_port_candidates(rect: Rect, shape: Shape, prefer_side: Option<Side>) -> (c: Vec<Pt>)
    requires rect_ok(rect),
    ensures c@ == spec_input_ports(rect, shape, prefer_side),
{
    let top_all = side_port_candidates(rect, shape, Side::Top);
    let mut cands: Vec<Pt> = Vec::new();
    if top_all.len() > 0 {
        cands.push(top_all[0]);
    }
    let mut k: usize = 1;
    while k < top_all.len()
        invariant
            top_all@ == spec_side_ports(rect, shape, Side::Top),
            1 <= k <= top_all.len(),
            cands@ == top_all@.take(k as int),
        decreases top_all.len() - k,
    {
        cands.push(top_all[k]);
        k += 1;
        assert(cands@ =~= top_all@.take(k as int));
    }
    assert(cands@ =~= top_all@);
    let (first, second) = match prefer_side {
        Some(Side::Right) => (Side::Right, Side::Left),
        _ => (Side::Left, Side::Right),
    };
    let mut a = side_port_candidates(rect, shape, first);
    let mut b = side_port_candidates(rect, shape, second);
    cands.append(&mut a);
    cands.append(&mut b);
    cands
}

/// Order in which the sides of a decision node are tried for an outgoing
/// edge: towards the target first, with the branch label as a soft hint
/// when the target is (nearly) straight below.
pub open spec fn spec_decision_sides(src: Rect, dst: Rect, label: Seq<char>) -> Seq<Side> {
    let dx = tdiv(dst.0 + dst.2, 2) - tdiv(src.0 + src.2, 2);
    let base = if dx < -16 {
        seq![Side::Left, Side::Bottom, Side::Right]
    } else if dx > 16 {
        seq![Side::Right, Side::Bottom, Side::Left]
    } else {
        seq![Side::Bottom, Side::Left, Side::Right]
    };
    if label == "elseif"@ {
        seq![Side::Bottom, Side::Left, Side::Right]
    } else if (label == "yes"@ || label == "if"@ || label == "case"@) && iabs(dx) <= 16 {
        seq![Side::Left, Side::Bottom, Side::Right]
    } else if (label == "no"@ || label == "else"@ || label == "default"@ || label == "otherwise"@) && iabs(dx) <= 16 {
        seq![Side::Right, Side::Bottom, Side::Left]
    } else {
        base
    }
}

pub fn decision_output_side_order(src_rect: Rect, dst_rect: Rect, label_lc: &str) -> (sides: Vec<Side>)
    requires rect_ok(src_rect), rect_ok(dst_rect),
    ensures sides@ == spec_decision_sides(src_rect, dst_rect, label_lc@),
{
    let src_cx = (src_rect.0 + src_rect.2) / 2;
    let dst_cx = (dst_rect.0 + dst_rect.2) / 2;
    let dx = dst_cx - src_cx;
    let mut sides = if dx < -16 {
        vec![Side::Left, Side::Bottom, Side::Right]
    } else if dx > 16 {
        vec![Side::Right, Side::Bottom, Side::Left]
    } else {
        vec![Side::Bottom, Side::Left, Side::Right]
    };
    if str_is(label_lc, "elseif") {
        sides = vec![Side::Bottom, Side::Left, Side::Right];
    } else if (str_is(label_lc, "yes") || str_is(label_lc, "if") || str_is(label_lc, "case")) && abs_i32(dx) <= 16 {
        sides = vec![Side::Left, Side::Bottom, Side::Right];
    } else if (str_is(label_lc, "no") || str_is(label_lc, "else") || str_is(label_lc, "default")
        || str_is(label_lc, "otherwise")) && abs_i32(dx) <= 16
    {
        sides = vec![Side::Right, Side::Bottom, Side::Left];
    }
    assert(sides@ =~= spec_decision_sides(src_rect, dst_rect, label_lc@));
    sides
}

/// Whether no other node sits in the band just above the top centre of the
/// destination where a downward entry needs `MIN_TOP_ENTRY_LEN` of room.
pub open spec fn blocks_top_entry(r: Rect, dst_rect: Rect) -> bool {
    let cx = tdiv(dst_rect.0 + dst_rect.2, 2);
    let x_overlap = imin(cx + 28, r.2 as int) - imax(cx - 28, r.0 as int);
    x_overlap > 0 && r.3 > dst_rect.1 - MIN_TOP_ENTRY_LEN && r.1 < dst_rect.1
}

pub open spec fn spec_top_clear(rects: Seq<Rect>, dst_id: usize, dst_rect: Rect) -> bool {
    forall|k: int| 0 <= k < rects.len() && k != dst_id ==> !#[trigger] blocks_top_entry(rects[k], dst_rect)
}

pub fn top_entry_clearance_available(rects: &[Rect], dst_id: usize, dst_rect: Rect) -> (r: bool)
    requires rects_ok(rects@), rect_ok(dst_rect),
    ensures r == spec_top_clear(rects@, dst_id, dst_rect),
{
    let (x1, y1, x2, _y2) = dst_rect;
    let cx = (x1 + x2) / 2;
    let band_half: i32 = 28;
    let y_top = y1 - MIN_TOP_ENTRY_LEN;
    let mut k: usize = 0;
    while k < rects.len()
        invariant
            rects_ok(rects@), rect_ok(dst_rect),
            cx == tdiv(dst_rect.0 + dst_rect.2, 2),
            y_top == dst_rect.1 - MIN_TOP_ENTRY_LEN,
            y1 == dst_rect.1,
            band_half == 28,
            k <= rects.len(),
            forall|q: int| 0 <= q < k && q != dst_id ==> !#[trigger] blocks_top_entry(rects@[q], dst_rect),
        decreases rects.len() - k,
    {
        if k != dst_id {
            let r = rects[k];
            assert(rect_ok(rects@[k as int]));
            let x_overlap = min_i32(cx + band_half, r.2) - max_i32(cx - band_half, r.0);
            if x_overlap > 0 && r.3 > y_top && r.1 < y1 {
                assert(blocks_top_entry(rects@[k as int], dst_rect));
                return false;
            }
        }
        k += 1;
    }
    true
}

/// Which end of an edge a port serves.
#[derive(Debug, Clone, Copy, PartialEq, Eq, Structural)]
pub enum PortRole {
    In,
    Out,
}

/// Ports already taken, per node index: one list for incoming edges and one
/// for outgoing edges. A list holds each port once.
pub open spec fn set_insert(s: Seq<Pt>, p: Pt) -> Seq<Pt> {
    if s.contains(p) { s } else { s.push(p) }
}

/// The candidates that occur in neither `a` nor `b`, in order.
pub open spec fn avail(c: Seq<Pt>, a: Seq<Pt>, b: Seq<Pt>) -> Seq<Pt>
    decreases c.len(),
{
    if c.len() == 0 {
        c
    } else {
        let prev = avail(c.drop_last(), a, b);
        if !a.contains(c.last()) && !b.contains(c.last()) { prev.push(c.last()) } else { prev }
    }
}

/// Distance key of a candidate port relative to a preferred point:
/// Manhattan distance, then horizontal distance.
pub open spec fn port_key_lt(q: Pt, m: Pt, pp: Pt) -> bool {
    let dq = iabs(q.0 - pp.0) + iabs(q.1 - pp.1);
    let dm = iabs(m.0 - pp.0) + iabs(m.1 - pp.1);
    dq < dm || (dq == dm && iabs(q.0 - pp.0) < iabs(m.0 - pp.0))
}

/// The first point of a nonempty list with the smallest key.
pub open spec fn pick_first_min(s: Seq<Pt>, pp: Pt) -> Pt
    decreases s.len(),
{
    if s.len() <= 1 {
        s[0]
    } else {
        let m = pick_first_min(s.drop_last(), pp);
        if port_key_lt(s.last(), m, pp) { s.last() } else { m }
    }
}

pub open spec fn pick(s: Seq<Pt>, prefer: Option<Pt>) -> Pt {
    match prefer {
        Some(pp) => pick_first_min(s, pp),
        None => s[0],
    }
}

/// The port chosen among `cands` given the ports already used by this role
/// (`own`) and by the other role (`other`): the best candidate free in both
/// lists, else the best free of the other role's ports, else the first one.
pub open spec fn spec_choose_port(cands: Seq<Pt>, own: Seq<Pt>, other: Seq<Pt>, prefer: Option<Pt>) -> Pt {
    let a1 = avail(cands, own, other);
    let a2 = avail(cands, Seq::empty(), other);
    if a1.len() > 0 { pick(a1, prefer) } else if a2.len() > 0 { pick(a2, prefer) } else { cands[0] }
}

proof fn lemma_avail_sub(c: Seq<Pt>, a: Seq<Pt>, b: Seq<Pt>)
    ensures
        avail(c, a, b).len() <= c.len(),
        forall|x: Pt| avail(c, a, b).contains(x) ==> c.contains(x),
    decreases c.len(),
{
    if c.len() > 0 {
        lemma_avail_sub(c.drop_last(), a, b);
        assert forall|x: Pt| avail(c, a, b).contains(x) implies c.contains(x) by {
            let v = avail(c, a, b);
            let j = choose|j: int| 0 <= j < v.len() && v[j] == x;
            let prev = avail(c.drop_last(), a, b);
            if j < prev.len() {
                assert(prev.contains(x));
                lemma_contains_drop_last(c, x);
            } else {
                assert(c[c.len() - 1] == x);
            }
        }
    }
}

proof fn lemma_pick_in(s: Seq<Pt>, pp: Pt)
    requires s.len() > 0,
    ensures s.contains(pick_first_min(s, pp)),
    decreases s.len(),
{
    if s.len() > 1 {
        lemma_pick_in(s.drop_last(), pp);
        let m = pick_first_min(s.drop_last(), pp);
        if !port_key_lt(s.last(), m, pp) {
            let j = choose|j: int| 0 <= j < s.drop_last().len() && s.drop_last()[j] == m;
            assert(s[j] == m);
        } else {
            assert(s[s.len() - 1] == s.last());
        }
    } else {
        assert(s[0] == pick_first_min(s, pp));
    }
}

fn avail_of(c: &[Pt], a: &[Pt], b: &[Pt]) -> (out: Vec<Pt>)
    ensures out@ == avail(c@, a@, b@),
{
    let mut out: Vec<Pt> = Vec::new();
    let mut i: usize = 0;
    while i < c.len()
        invariant i <= c.len(), out@ == avail(c@.take(i as int), a@, b@),
        decreases c.len() - i,
    {
        assert(c@.take(i + 1).drop_last() =~= c@.take(i as int));
        if !pt_in(a, c[i]) && !pt_in(b, c[i]) {
            out.push(c[i]);
        }
        i += 1;
    }
    assert(c@.take(c.len() as int) =~= c@);
    out
}

fn pick_port(s: &[Pt], prefer: Option<Pt>) -> (p: Pt)
    requires s@.len() > 0, path_ok(s@), prefer is Some ==> pt_ok(prefer->0),
    ensures p == pick(s@, prefer),
{
    match prefer {
        None => s[0],
        Some(pp) => {
            let mut m = s[0];
            let mut i: usize = 1;
            assert(s@.take(1).len() == 1);
            while i < s.len()
                invariant
                    1 <= i <= s.len(),
                    path_ok(s@), pt_ok(pp),
                    m == pick_first_min(s@.take(i as int), pp),
                    pt_ok(m),
                decreases s.len() - i,
            {
                let q = s[i];
                assert(s@.take(i + 1).drop_last() =~= s@.take(i as int));
                assert(pt_ok(q));
                let dq = abs_i32(q.0 - pp.0) + abs_i32(q.1 - pp.1);
                let dm = abs_i32(m.0 - pp.0) + abs_i32(m.1 - pp.1);
                if dq < dm || (dq == dm && abs_i32(q.0 - pp.0) < abs_i32(m.0 - pp.0)) {
                    m = q;
                }
                i += 1;
            }
            assert(s@.take(s.len() as int) =~= s@);
            m
        },
    }
}

fn insert_port(used: &mut Vec<Vec<Pt>>, node: usize, p: Pt)
    requires node < old(used)@.len(),
    ensures
        final(used)@.len() == old(used)@.len(),
        final(used)@[node as int]@ == set_insert(old(used)@[node as int]@, p),
        forall|k: int| 0 <= k < old(used)@.len() && k != node ==> final(used)@[k] == old(used)@[k],
{
    let mut v = copy_path(&used[node]);
    if !pt_in(&v, p) {
        v.push(p);
    }
    used.set(node, v);
}

pub open spec fn role_lists(used_in: Seq<Vec<Pt>>, used_out: Seq<Vec<Pt>>, node: usize, role: PortRole) -> (Seq<Pt>, Seq<Pt>) {
    if role == PortRole::In { (used_in[node as int]@, used_out[node as int]@) } else { (used_out[node as int]@, used_in[node as int]@) }
}

/// Chooses a port for `node` among `candidates` and records it as used by
/// `role`.
pub fn choose_port_role(
    used_in: &mut Vec<Vec<Pt>>,
    used_out: &mut Vec<Vec<Pt>>,
    node_id: usize,
    candidates: &[Pt],
    role: PortRole,
    prefer_point: Option<Pt>,
) -> (p: Pt)
    requires
        node_id < old(used_in)@.len(),
        node_id < old(used_out)@.len(),
        candidates@.len() > 0,
        path_ok(candidates@),
        prefer_point is Some ==> pt_ok(prefer_point->0),
    ensures
        p == spec_choose_port(candidates@,
            role_lists(old(used_in)@, old(used_out)@, node_id, role).0,
            role_lists(old(used_in)@, old(used_out)@, node_id, role).1, prefer_point),
        candidates@.contains(p),
        role == PortRole::In ==> final(used_in)@.len() == old(used_in)@.len()
            && final(used_in)@[node_id as int]@ == set_insert(old(used_in)@[node_id as int]@, p)
            && (forall|k: int| 0 <= k < old(used_in)@.len() && k != node_id ==> final(used_in)@[k] == old(used_in)@[k])
            && final(used_out)@ == old(used_out)@,
        role == PortRole::Out ==> final(used_out)@.len() == old(used_out)@.len()
            && final(used_out)@[node_id as int]@ == set_insert(old(used_out)@[node_id as int]@, p)
            && (forall|k: int| 0 <= k < old(used_out)@.len() && k != node_id ==> final(used_out)@[k] == old(used_out)@[k])
            && final(used_in)@ == old(used_in)@,
{
    let is_in = match role { PortRole::In => true, PortRole::Out => false };
    let (own_used, other_used) = if is_in {
        (copy_path(&used_in[node_id]), copy_path(&used_out[node_id]))
    } else {
        (copy_path(&used_out[node_id]), copy_path(&used_in[node_id]))
    };
    let empty: Vec<Pt> = Vec::new();
    let a1 = avail_of(candidates, &own_used, &other_used);
    let a2 = avail_of(candidates, &empty, &other_used);
    proof {
        lemma_avail_sub(candidates@, own_used@, other_used@);
        lemma_avail_sub(candidates@, empty@, other_used@);
        assert forall|i: int| 0 <= i < a1@.len() implies pt_ok(#[trigger] a1@[i]) by {
            assert(a1@.contains(a1@[i]));
            assert(candidates@.contains(a1@[i]));
            let m = choose|m: int| 0 <= m < candidates@.len() && candidates@[m] == a1@[i];
            assert(pt_ok(candidates@[m]));
        }
        assert forall|i: int| 0 <= i < a2@.len() implies pt_ok(#[trigger] a2@[i]) by {
            assert(a2@.contains(a2@[i]));
            assert(candidates@.contains(a2@[i]));
            let m = choose|m: int| 0 <= m < candidates@.len() && candidates@[m] == a2@[i];
            assert(pt_ok(candidates@[m]));
        }
    }
    let p = if a1.len() > 0 {
        proof { if let Some(pp) = prefer_point { lemma_pick_in(a1@, pp); } else { assert(a1@[0] == a1@[0]); } }
        pick_port(&a1, prefer_point)
    } else if a2.len() > 0 {
        proof { if let Some(pp) = prefer_point { lemma_pick_in(a2@, pp); } }
        pick_port(&a2, prefer_point)
    } else {
        candidates[0]
    };
    proof {
        if a1@.len() > 0 {
            if prefer_point is None { assert(a1@.contains(a1@[0])); }
            assert(a1@.contains(p));
        } else if a2@.len() > 0 {
            if prefer_point is None { assert(a2@.contains(a2@[0])); }
            assert(a2@.contains(p));
        } else {
            assert(candidates@[0] == p);
        }
    }
    if is_in {
        insert_port(used_in, node_id, p);
    } else {
        insert_port(used_out, node_id, p);
    }
    p
}

/// Chooses an input port, preferring the top centre when it is a candidate,
/// has room above it, and is not yet used by the node; otherwise as
/// `choose_port_role` for incoming edges.
pub fn choose_input_port_prioritize_top(
    used_in: &mut Vec<Vec<Pt>>,
    used_out: &mut Vec<Vec<Pt>>,
    node_id: usize,
    rects: &[Rect],
    dst_rect: Rect,
    candidates: &[Pt],
    prefer_point: Option<Pt>,
) -> (p: Pt)
    requires
        node_id < old(used_in)@.len(),
        node_id < old(used_out)@.len(),
        candidates@.len() > 0,
        path_ok(candidates@),
        rects_ok(rects@),
        rect_ok(dst_rect),
        prefer_point is Some ==> pt_ok(prefer_point->0),
    ensures
        ({
            let top = (tdiv(dst_rect.0 + dst_rect.2, 2) as i32, dst_rect.1);
            let top_free = candidates@.contains(top) && spec_top_clear(rects@, node_id, dst_rect)
                && !old(used_in)@[node_id as int]@.contains(top) && !old(used_out)@[node_id as int]@.contains(top);
            p == (if top_free { top } else {
                spec_choose_port(candidates@, old(used_in)@[node_id as int]@, old(used_out)@[node_id as int]@, prefer_point)
            })
        }),
        candidates@.contains(p),
        final(used_in)@.len() == old(used_in)@.len(),
        final(used_in)@[node_id as int]@ == set_insert(old(used_in)@[node_id as int]@, p),
        forall|k: int| 0 <= k < old(used_in)@.len() && k != node_id ==> final(used_in)@[k] == old(used_in)@[k],
        final(used_out)@ == old(used_out)@,
{
    let top_center = ((dst_rect.0 + dst_rect.2) / 2, dst_rect.1);
    if pt_in(candidates, top_center)
        && top_entry_clearance_available(rects, node_id, dst_rect)
        && !pt_in(&used_in[node_id], top_center)
        && !pt_in(&used_out[node_id], top_center)
    {
        insert_port(used_in, node_id, top_center);
        return top_center;
    }
    choose_port_role(used_in, used_out, node_id, candidates, PortRole::In, prefer_point)
}

pub open spec fn dist(p: Pt, base: Pt) -> int {
    iabs(p.0 - base.0) + iabs(p.1 - base.1)
}

/// Inserts `x` into `s` before the first element farther from `base` than
/// `x` (so equal distances keep their order).
pub open spec fn ins_by_dist(s: Seq<Pt>, x: Pt, base: Pt) -> Seq<Pt>
    decreases s.len(),
{
    if s.len() == 0 {
        seq![x]
    } else if dist(s[0], base) > dist(x, base) {
        seq![x] + s
    } else {
        seq![s[0]] + ins_by_dist(s.drop_first(), x, base)
    }
}

/// Stable sort of `s` by distance from `base`.
pub open spec fn sort_by_dist(s: Seq<Pt>, base: Pt) -> Seq<Pt>
    decreases s.len(),
{
    if s.len() == 0 { s } else { ins_by_dist(sort_by_dist(s.drop_last(), base), s.last(), base) }
}

/// Number of variants kept: `limit` read as an `i32`, at least one.
pub open spec fn variant_count(limit: usize) -> int {
    let l = (limit as i32) as int;
    if l >= 1 { l } else { 1 }
}

pub open spec fn spec_port_variants(base: Pt, candidates: Seq<Pt>, limit: usize) -> Seq<Pt> {
    let sorted = sort_by_dist(crate::path::spec_dedup(seq![base] + candidates), base);
    if variant_count(limit) < sorted.len() { sorted.take(variant_count(limit)) } else { sorted }
}

proof fn lemma_ins_split(s: Seq<Pt>, x: Pt, base: Pt, j: int)
    requires
        0 <= j <= s.len(),
        forall|k: int| 0 <= k < j ==> dist(#[trigger] s[k], base) <= dist(x, base),
        j < s.len() ==> dist(s[j], base) > dist(x, base),
    ensures ins_by_dist(s, x, base) == s.insert(j, x),
    decreases s.len(),
{
    if s.len() == 0 {
        assert(s.insert(j, x) =~= seq![x]);
    } else if j == 0 {
        assert(s.insert(0, x) =~= seq![x] + s);
    } else {
        let t = s.drop_first();
        assert forall|k: int| 0 <= k < j - 1 implies dist(#[trigger] t[k], base) <= dist(x, base) by {
            assert(t[k] == s[k + 1]);
        }
        if j - 1 < t.len() { assert(t[j - 1] == s[j]); }
        lemma_ins_split(t, x, base, j - 1);
        assert(s.insert(j, x) =~= seq![s[0]] + t.insert(j - 1, x));
    }
}

/// The base point and the candidates, without repeats, sorted (stably) by
/// Manhattan distance from the base point and cut to `max(1, limit)` points
/// (with `limit` read as an `i32`).
pub fn port_variants(base_pt: Pt, candidates: &[Pt], limit: usize) -> (out: Vec<Pt>)
    requires pt_ok(base_pt), path_ok(candidates@),
    ensures out@ == spec_port_variants(base_pt, candidates@, limit),
{
    let mut all: Vec<Pt> = Vec::new();
    all.push(base_pt);
    let mut k: usize = 0;
    while k < candidates.len()
        invariant
            k <= candidates.len(),
            all@ == seq![base_pt] + candidates@.take(k as int),
        decreases candidates.len() - k,
    {
        all.push(candidates[k]);
        k += 1;
        assert(all@ =~= seq![base_pt] + candidates@.take(k as int));
    }
    assert(candidates@.take(candidates.len() as int) =~= candidates@);
    let uniq = crate::path::unique_ports(&all);
    proof {
        assert(path_ok(all@)) by {
            assert forall|i: int| 0 <= i < all@.len() implies pt_ok(#[trigger] all@[i]) by {
                if i > 0 { assert(all@[i] == candidates@[i - 1]); }
            }
        }
        lemma_dedup_ok(all@);
    }
    let mut sorted: Vec<Pt> = Vec::new();
    let mut i: usize = 0;
    while i < uniq.len()
        invariant
            i <= uniq.len(),
            path_ok(uniq@),
            pt_ok(base_pt),
            sorted@ == sort_by_dist(uniq@.take(i as int), base_pt),
            path_ok(sorted@),
            sorted@.len() == i,
        decreases uniq.len() - i,
    {
        let x = uniq[i];
        let dx = abs_i32(x.0 - base_pt.0) + abs_i32(x.1 - base_pt.1);
        let mut j: usize = 0;
        while j < sorted.len()
            && abs_i32(sorted[j].0 - base_pt.0) + abs_i32(sorted[j].1 - base_pt.1) <= dx
            invariant
                j <= sorted.len(),
                path_ok(sorted@), pt_ok(base_pt), pt_ok(x),
                dx == dist(x, base_pt),
                forall|q: int| 0 <= q < j ==> dist(#[trigger] sorted@[q], base_pt) <= dist(x, base_pt),
            decreases sorted.len() - j,
        {
            j += 1;
        }
        proof {
            lemma_ins_split(sorted@, x, base_pt, j as int);
            assert(uniq@.take(i + 1).drop_last() =~= uniq@.take(i as int));
        }
        sorted.insert(j, x);
        i += 1;
        proof {
            assert forall|q: int| 0 <= q < sorted@.len() implies pt_ok(#[trigger] sorted@[q]) by {
                let old_s = sorted@.remove(j as int);
                if q < j { } else if q > j { }
            }
        }
    }
    assert(uniq@.take(uniq.len() as int) =~= uniq@);
    let l = limit as i32;
    let n: usize = if l >= 1 { l as usize } else { 1 };
    if n < sorted.len() {
        sorted.truncate(n);
    }
    sorted
}

proof fn lemma_dedup_ok(s: Seq<Pt>)
    requires path_ok(s),
    ensures path_ok(crate::path::spec_dedup(s)),
    decreases s.len(),
{
    if s.len() > 0 {
        lemma_dedup_ok(s.drop_last());
        assert(pt_ok(s.last()));
    }
}

} // verus!
