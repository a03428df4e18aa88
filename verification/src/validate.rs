//! The layout check: counts and describes overlapping nodes, edges that
//! cross or crowd nodes, bad entry directions, shared input ports and
//! parallel edge runs that overlap or run too close.
use vstd::prelude::*;
use crate::geometry::{
    Pt, Rect, Side, EntryCheck, spec_incoming_dir_valid, incoming_dir_valid, spec_seg_hits_rect, seg_hits_rect,
    spec_seg_too_close, seg_too_close_to_rect, rect_ok, rects_ok, path_ok, imin, imax, iabs, min_i32, max_i32,
    abs_i32, MIN_CLOSE_VIOLATION, STROKE_WIDTH, MIN_TOP_ENTRY_LEN,
};
use crate::path::EdgePath;
use crate::routing::{non_orth, total_pts};
use crate::scoring::{spec_port_usage, usage_view, input_port_usage};
use crate::graph::opt_view;
use crate::text::{chars_of, string_of, append_chars, spec_decimal, decimal, label_is};
use crate::octave_flow::strs_view;

verus! {

broadcast use vstd::string::group_string_axioms;

/// Decimal text of a signed integer.
pub open spec fn int_text(v: int) -> Seq<char> {
    if v < 0 { "-"@ + spec_decimal((-v) as nat) } else { spec_decimal(v as nat) }
}

pub fn int_text_exec(v: i32) -> (r: Vec<char>)
    ensures r@ == int_text(v as int),
{
    if v < 0 {
        let mut r = chars_of("-");
        let m: i64 = 0i64 - (v as i64);
        assert(m <= 0x8000_0000);
        append_chars(&mut r, &decimal(m as usize));
        r
    } else {
        decimal(v as usize)
    }
}

/// A point as `(x, y)`.
pub open spec fn pt_text(p: Pt) -> Seq<char> {
    "("@ + int_text(p.0 as int) + ", "@ + int_text(p.1 as int) + ")"@
}

fn pt_text_exec(p: Pt) -> (r: Vec<char>)
    ensures r@ == pt_text(p),
{
    let mut r = chars_of("(");
    append_chars(&mut r, &int_text_exec(p.0));
    append_chars(&mut r, &chars_of(", "));
    append_chars(&mut r, &int_text_exec(p.1));
    append_chars(&mut r, &chars_of(")"));
    r
}

/// Why a final segment enters its node badly.
pub open spec fn why_text(c: EntryCheck) -> Seq<char> {
    match c {
        EntryCheck::PathTooShort => "path too short"@,
        EntryCheck::OnSide(side, a, b) => match side {
            Side::Top => "top expects downward entry with min 52px, got "@ + pt_text(a) + "->"@ + pt_text(b),
            Side::Bottom => "bottom expects upward entry, got "@ + pt_text(a) + "->"@ + pt_text(b),
            Side::Left => "left expects rightward entry, got "@ + pt_text(a) + "->"@ + pt_text(b),
            Side::Right => "right expects leftward entry, got "@ + pt_text(a) + "->"@ + pt_text(b),
            Side::Center => "endpoint not on node boundary: "@ + pt_text(b),
        },
        EntryCheck::OffBoundary(b) => "endpoint not on node boundary: "@ + pt_text(b),
    }
}

fn why_text_exec(c: EntryCheck) -> (r: Vec<char>)
    ensures r@ == why_text(c),
{
    match c {
        EntryCheck::PathTooShort => chars_of("path too short"),
        EntryCheck::OnSide(side, a, b) => {
            let mut r = match side {
                Side::Top => chars_of("top expects downward entry with min 52px, got "),
                Side::Bottom => chars_of("bottom expects upward entry, got "),
                Side::Left => chars_of("left expects rightward entry, got "),
                Side::Right => chars_of("right expects leftward entry, got "),
                Side::Center => {
                    let mut r = chars_of("endpoint not on node boundary: ");
                    append_chars(&mut r, &pt_text_exec(b));
                    return r;
                },
            };
            append_chars(&mut r, &pt_text_exec(a));
            append_chars(&mut r, &chars_of("->"));
            append_chars(&mut r, &pt_text_exec(b));
            r
        },
        EntryCheck::OffBoundary(b) => {
            let mut r = chars_of("endpoint not on node boundary: ");
            append_chars(&mut r, &pt_text_exec(b));
            r
        },
    }
}

pub open spec fn rects_overlap(a: Rect, b: Rect) -> bool {
    a.0 < b.2 && a.2 > b.0 && a.1 < b.3 && a.3 > b.1
}

pub open spec fn overlap_msg(names: Seq<Seq<char>>, i: int, j: int) -> Seq<char> {
    "Node overlap: "@ + names[i] + " with "@ + names[j]
}

/// Messages for the overlapping pairs `(i, j)`, `j` from `j0` on.
pub open spec fn overlap_row(names: Seq<Seq<char>>, rs: Seq<Rect>, i: int, j: int) -> Seq<Seq<char>>
    decreases rs.len() - j,
{
    if j < 0 || j >= rs.len() {
        Seq::empty()
    } else {
        (if rects_overlap(rs[i], rs[j]) { seq![overlap_msg(names, i, j)] } else { Seq::empty() }) + overlap_row(names, rs, i, j + 1)
    }
}

/// Messages for the overlapping node pairs `(i, j)`, `i < j`, from row `i` on.
pub open spec fn overlap_msgs(names: Seq<Seq<char>>, rs: Seq<Rect>, i: int) -> Seq<Seq<char>>
    decreases rs.len() - i,
{
    if i < 0 || i >= rs.len() {
        Seq::empty()
    } else {
        overlap_row(names, rs, i, i + 1) + overlap_msgs(names, rs, i + 1)
    }
}

/// The first node from `k` on, other than `from` and `to`, that the
/// segment crosses (`true`) or runs too close to (`false`).
pub open spec fn seg_verdict(a: Pt, b: Pt, rs: Seq<Rect>, from: usize, to: usize, k: int) -> Option<(int, bool)>
    decreases rs.len() - k,
{
    if k < 0 || k >= rs.len() {
        None
    } else if k == from || k == to {
        seg_verdict(a, b, rs, from, to, k + 1)
    } else if spec_seg_hits_rect(a, b, rs[k]) {
        Some((k, true))
    } else if spec_seg_too_close(a, b, rs[k]) {
        Some((k, false))
    } else {
        seg_verdict(a, b, rs, from, to, k + 1)
    }
}

/// Running totals of the per-edge checks.
pub ghost struct ETally {
    pub bad_entry: int,
    pub non_orth: int,
    pub cross: int,
    pub close: int,
    pub msgs: Seq<Seq<char>>,
}

pub open spec fn edge_name(names: Seq<Seq<char>>, e: EdgePath) -> Seq<char> {
    names[e.from as int] + "->"@ + names[e.to as int]
}

/// Segment `i` of edge `e` checked: diagonal, and crossing or crowding a node.
pub open spec fn seg_step(t: ETally, names: Seq<Seq<char>>, rs: Seq<Rect>, e: EdgePath, i: int) -> ETally {
    let a = e.path@[i];
    let b = e.path@[i + 1];
    let en = edge_name(names, e);
    let t1 = if non_orth(a, b) {
        ETally { non_orth: t.non_orth + 1, msgs: t.msgs.push("Non-orth segment on edge "@ + en + ": "@ + pt_text(a) + "->"@ + pt_text(b)), ..t }
    } else { t };
    match seg_verdict(a, b, rs, e.from, e.to, 0) {
        Some((k, true)) => ETally { cross: t1.cross + 1, msgs: t1.msgs.push("Edge "@ + en + " crosses node "@ + names[k]), ..t1 },
        Some((k, false)) => ETally { close: t1.close + 1, msgs: t1.msgs.push("Edge "@ + en + " too close to node "@ + names[k]), ..t1 },
        None => t1,
    }
}

pub open spec fn segs_fold(t: ETally, names: Seq<Seq<char>>, rs: Seq<Rect>, e: EdgePath, i: int) -> ETally
    decreases e.path@.len() - i,
{
    if i < 0 || i + 1 >= e.path@.len() { t } else { segs_fold(seg_step(t, names, rs, e, i), names, rs, e, i + 1) }
}

/// One edge checked: its entry direction, then each of its segments.
pub open spec fn edge_step(t: ETally, names: Seq<Seq<char>>, rs: Seq<Rect>, e: EdgePath) -> ETally {
    let (ok, why) = spec_incoming_dir_valid(e.path@, rs[e.to as int]);
    let t1 = if !ok {
        ETally { bad_entry: t.bad_entry + 1, msgs: t.msgs.push("Edge "@ + edge_name(names, e) + " bad final-entry direction: "@ + why_text(why)), ..t }
    } else { t };
    segs_fold(t1, names, rs, e, 0)
}

pub open spec fn edges_fold(t: ETally, names: Seq<Seq<char>>, rs: Seq<Rect>, es: Seq<EdgePath>, k: int) -> ETally
    decreases es.len() - k,
{
    if k < 0 || k >= es.len() { t } else { edges_fold(edge_step(t, names, rs, es[k]), names, rs, es, k + 1) }
}

pub open spec fn etally0() -> ETally {
    ETally { bad_entry: 0, non_orth: 0, cross: 0, close: 0, msgs: Seq::empty() }
}

/// The input ports shared by more than one edge, from group `k` on: the
/// surplus edges and a message for each such port.
pub open spec fn port_fold(names: Seq<Seq<char>>, u: Seq<((usize, Pt), Seq<usize>)>, k: int) -> (int, Seq<Seq<char>>)
    decreases u.len() - k,
{
    if k < 0 || k >= u.len() {
        (0, Seq::empty())
    } else {
        let r = port_fold(names, u, k + 1);
        let cnt = u[k].1.len();
        if cnt > 1 {
            (r.0 + cnt - 1, seq!["Input port reused on "@ + names[u[k].0.0 as int] + " at "@ + pt_text(u[k].0.1) + ": "@
                + spec_decimal(cnt) + " edges"@] + r.1)
        } else {
            r
        }
    }
}

/// A horizontal or vertical edge segment: its fixed coordinate, its span,
/// its edge's endpoints and label, and where that edge's path starts.
#[derive(Debug)]
pub struct SegRec {
    pub fixed: i32,
    pub lo: i32,
    pub hi: i32,
    pub from: usize,
    pub to: usize,
    pub label: Option<String>,
    pub anchor: Pt,
}

pub ghost struct SegV {
    pub fixed: i32,
    pub lo: i32,
    pub hi: i32,
    pub from: usize,
    pub to: usize,
    pub label: Option<Seq<char>>,
    pub anchor: Pt,
}

impl View for SegRec {
    type V = SegV;

    open spec fn view(&self) -> SegV {
        SegV { fixed: self.fixed, lo: self.lo, hi: self.hi, from: self.from, to: self.to, label: opt_view(self.label), anchor: self.anchor }
    }
}

pub open spec fn recs_view(v: Seq<SegRec>) -> Seq<SegV> {
    v.map_values(|r: SegRec| r@)
}

/// Segment `i` of `e` as a record, if it is horizontal (`horiz`) or
/// vertical (not `horiz`); a zero-length segment counts as horizontal.
pub open spec fn seg_rec_of(e: EdgePath, i: int, horiz: bool) -> Seq<SegV> {
    let a = e.path@[i];
    let b = e.path@[i + 1];
    let anchor = e.path@[0];
    if a.1 == b.1 {
        if horiz {
            seq![SegV { fixed: a.1, lo: imin(a.0 as int, b.0 as int) as i32, hi: imax(a.0 as int, b.0 as int) as i32,
                from: e.from, to: e.to, label: opt_view(e.label), anchor }]
        } else { Seq::empty() }
    } else if a.0 == b.0 {
        if !horiz {
            seq![SegV { fixed: a.0, lo: imin(a.1 as int, b.1 as int) as i32, hi: imax(a.1 as int, b.1 as int) as i32,
                from: e.from, to: e.to, label: opt_view(e.label), anchor }]
        } else { Seq::empty() }
    } else {
        Seq::empty()
    }
}

pub open spec fn edge_recs(e: EdgePath, i: int, horiz: bool) -> Seq<SegV>
    decreases e.path@.len() - i,
{
    if i < 0 || i + 1 >= e.path@.len() { Seq::empty() } else { seg_rec_of(e, i, horiz) + edge_recs(e, i + 1, horiz) }
}

/// The horizontal (or vertical) segments of the edges from `k` on, in order.
pub open spec fn all_recs(es: Seq<EdgePath>, k: int, horiz: bool) -> Seq<SegV>
    decreases es.len() - k,
{
    if k < 0 || k >= es.len() { Seq::empty() } else { edge_recs(es[k], 0, horiz) + all_recs(es, k + 1, horiz) }
}

/// Running totals of the segment-pair checks.
pub ghost struct PTally {
    pub allowed: int,
    pub parallel: int,
    pub loop_overlap: int,
    pub micro: int,
    pub close: int,
    pub loop_close: int,
    pub allowed_samples: Seq<Seq<char>>,
    pub parallel_samples: Seq<Seq<char>>,
}

pub open spec fn ptally0() -> PTally {
    PTally { allowed: 0, parallel: 0, loop_overlap: 0, micro: 0, close: 0, loop_close: 0,
        allowed_samples: Seq::empty(), parallel_samples: Seq::empty() }
}

pub open spec fn is_lbl(l: Option<Seq<char>>, s: Seq<char>) -> bool {
    l is Some && l->0 == s
}

/// The `next` and `done` edges of one loop node.
pub open spec fn rec_siblings(s1: SegV, s2: SegV) -> bool {
    (is_lbl(s1.label, "next"@) && is_lbl(s2.label, "done"@) && s1.to == s2.from)
        || (is_lbl(s1.label, "done"@) && is_lbl(s2.label, "next"@) && s1.from == s2.to)
}

pub open spec fn sample_msg(names: Seq<Seq<char>>, s1: SegV, s2: SegV, ov: int, horiz: bool) -> Seq<char> {
    (if horiz { "H y="@ } else { "V x="@ }) + int_text(s1.fixed as int) + " overlap="@ + int_text(ov) + " edges "@
        + names[s1.from as int] + "->"@ + names[s1.to as int] + " vs "@ + names[s2.from as int] + "->"@ + names[s2.to as int]
}

pub open spec fn add_sample(v: Seq<Seq<char>>, m: Seq<char>) -> Seq<Seq<char>> {
    if v.len() < 8 { v.push(m) } else { v }
}

/// One pair of parallel segments of different edges: an overlap on the
/// same line is allowed for edges leaving the same port of the same node,
/// else counted; nearby runs are counted as micro-overlap risks or as too
/// close.
pub open spec fn pair_step(t: PTally, names: Seq<Seq<char>>, s1: SegV, s2: SegV, horiz: bool) -> PTally {
    if s1.from == s2.from && s1.to == s2.to {
        t
    } else {
        let sib = rec_siblings(s1, s2);
        let allow = s1.from == s2.from && s1.anchor == s2.anchor;
        let ov = imin(s1.hi as int, s2.hi as int) - imax(s1.lo as int, s2.lo as int);
        let d = iabs(s1.fixed - s2.fixed);
        if s1.fixed == s2.fixed && ov > 0 {
            if allow {
                PTally { allowed: t.allowed + 1, allowed_samples: add_sample(t.allowed_samples, sample_msg(names, s1, s2, ov, horiz)), ..t }
            } else {
                PTally {
                    parallel: t.parallel + 1,
                    parallel_samples: add_sample(t.parallel_samples, sample_msg(names, s1, s2, ov, horiz)),
                    loop_overlap: t.loop_overlap + if sib { 1int } else { 0int },
                    ..t
                }
            }
        } else {
            let t1 = if !allow && ov > 0 && d <= STROKE_WIDTH * 2 + 1 { PTally { micro: t.micro + 1, ..t } } else { t };
            if d < MIN_CLOSE_VIOLATION && ov > 80 {
                PTally { close: t1.close + 1, ..t1 }
            } else if sib && d < MIN_CLOSE_VIOLATION && ov > 24 {
                PTally { close: t1.close + 1, loop_close: t1.loop_close + 1, ..t1 }
            } else {
                t1
            }
        }
    }
}

pub open spec fn pair_row(t: PTally, names: Seq<Seq<char>>, segs: Seq<SegV>, i: int, j: int, horiz: bool) -> PTally
    decreases segs.len() - j,
{
    if j < 0 || j >= segs.len() { t } else { pair_row(pair_step(t, names, segs[i], segs[j], horiz), names, segs, i, j + 1, horiz) }
}

/// All pairs `(i, j)`, `i < j`, of the segments from row `i` on, in order.
pub open spec fn pairs_fold(t: PTally, names: Seq<Seq<char>>, segs: Seq<SegV>, i: int, horiz: bool) -> PTally
    decreases segs.len() - i,
{
    if i < 0 || i >= segs.len() { t } else { pairs_fold(pair_row(t, names, segs, i, i + 1, horiz), names, segs, i + 1, horiz) }
}

pub open spec fn count_msg(prefix: Seq<char>, n: int) -> Seq<Seq<char>> {
    if n > 0 { seq![prefix + spec_decimal(n as nat)] } else { Seq::empty() }
}

pub open spec fn summary_msgs(t: PTally) -> Seq<Seq<char>> {
    count_msg("Parallel segments overlap: "@, t.parallel)
        + count_msg("Parallel segments too close: "@, t.close)
        + count_msg("Micro-overlap visual risk (very close short parallel runs): "@, t.micro)
        + count_msg("Loop next/done siblings overlap: "@, t.loop_overlap)
        + count_msg("Loop next/done siblings too close: "@, t.loop_close)
}

/// The layout report as plain values.
pub ghost struct ReportV {
    pub node_overlaps: int,
    pub edge_node_crossings: int,
    pub line_block_clearance_violations: int,
    pub shared_input_ports: int,
    pub bad_entry_direction_edges: int,
    pub non_orth_segments: int,
    pub edge_edge_overlaps: int,
    pub parallel_overlap_segments: int,
    pub parallel_overlap_samples: Seq<Seq<char>>,
    pub allowed_parallel_overlap_segments: int,
    pub allowed_parallel_overlap_samples: Seq<Seq<char>>,
    pub close_parallel_segments: int,
    pub micro_overlap_risk_segments: int,
    pub loop_next_done_overlap_segments: int,
    pub loop_next_done_close_segments: int,
    pub issue_count: int,
    pub issue_samples: Seq<Seq<char>>,
    pub nodes: int,
    pub edges: int,
}

/// All issue messages in order: node overlaps, per-edge findings, shared
/// input ports, then the pair-check summaries.
pub open spec fn spec_issues(names: Seq<Seq<char>>, rs: Seq<Rect>, es: Seq<EdgePath>) -> Seq<Seq<char>> {
    let t = pairs_fold(pairs_fold(ptally0(), names, all_recs(es, 0, true), 0, true), names, all_recs(es, 0, false), 0, false);
    overlap_msgs(names, rs, 0) + edges_fold(etally0(), names, rs, es, 0).msgs
        + port_fold(names, spec_port_usage(es, es.len() as int), 0).1 + summary_msgs(t)
}

/// What the layout check reports on nodes `names` with rectangles `rs` and
/// routed edges `es`.
pub open spec fn spec_validate(names: Seq<Seq<char>>, rs: Seq<Rect>, es: Seq<EdgePath>) -> ReportV {
    let et = edges_fold(etally0(), names, rs, es, 0);
    let pu = port_fold(names, spec_port_usage(es, es.len() as int), 0);
    let t = pairs_fold(pairs_fold(ptally0(), names, all_recs(es, 0, true), 0, true), names, all_recs(es, 0, false), 0, false);
    let issues = spec_issues(names, rs, es);
    ReportV {
        node_overlaps: overlap_msgs(names, rs, 0).len() as int,
        edge_node_crossings: et.cross,
        line_block_clearance_violations: et.close,
        shared_input_ports: pu.0,
        bad_entry_direction_edges: et.bad_entry,
        non_orth_segments: et.non_orth,
        edge_edge_overlaps: t.parallel,
        parallel_overlap_segments: t.parallel,
        parallel_overlap_samples: t.parallel_samples,
        allowed_parallel_overlap_segments: t.allowed,
        allowed_parallel_overlap_samples: t.allowed_samples,
        close_parallel_segments: t.close,
        micro_overlap_risk_segments: t.micro,
        loop_next_done_overlap_segments: t.loop_overlap,
        loop_next_done_close_segments: t.loop_close,
        issue_count: issues.len() as int,
        issue_samples: if issues.len() <= 30 { issues } else { issues.take(30) },
        nodes: rs.len() as int,
        edges: es.len() as int,
    }
}

/// Inputs the check accepts: a name and a rectangle per node, edges between
/// existing nodes, coordinates within bounds, and at most 2^15 nodes and
/// path points so that every count of pairs (at most 2^30) fits the
/// report's `i32` counters.
pub open spec fn validate_ok(names: Seq<String>, rs: Seq<Rect>, es: Seq<EdgePath>) -> bool {
    &&& names.len() == rs.len()
    &&& rs.len() <= 0x8000
    &&& rects_ok(rs)
    &&& forall|k: int| 0 <= k < es.len() ==> (#[trigger] es[k]).from < rs.len() && es[k].to < rs.len() && path_ok(es[k].path@)
    &&& total_pts(es, es.len() as int) <= 0x8000
}


fn push_str(out: &mut Vec<String>, v: &Vec<char>)
    ensures strs_view(final(out)@) == strs_view(old(out)@).push(v@),
{
    let ghost o0 = strs_view(out@);
    out.push(string_of(v));
    assert(strs_view(out@) =~= o0.push(v@));
}

fn append_name(v: &mut Vec<char>, names: &[String], k: usize)
    requires k < names@.len(),
    ensures final(v)@ == old(v)@ + strs_view(names@)[k as int],
{
    assert(strs_view(names@)[k as int] == names@[k as int]@);
    append_chars(v, &chars_of(names[k].as_str()));
}

fn overlap_msgs_exec(names: &[String], rects: &[Rect]) -> (r: Vec<String>)
    requires names@.len() == rects@.len(),
    ensures strs_view(r@) == overlap_msgs(strs_view(names@), rects@, 0),
{
    let ghost nm = strs_view(names@);
    let ghost rs = rects@;
    let mut out: Vec<String> = Vec::new();
    let n = rects.len();
    let mut i: usize = 0;
    assert(strs_view(out@) =~= Seq::<Seq<char>>::empty());
    assert(strs_view(out@) + overlap_msgs(nm, rs, 0) =~= overlap_msgs(nm, rs, 0));
    while i < n
        invariant
            i <= n, n == rs.len(), rs == rects@, nm == strs_view(names@), names@.len() == n,
            strs_view(out@) + overlap_msgs(nm, rs, i as int) == overlap_msgs(nm, rs, 0),
        decreases n - i,
    {
        let ghost o0 = strs_view(out@);
        let mut j: usize = i + 1;
        assert(o0 + overlap_row(nm, rs, i as int, j as int) + overlap_msgs(nm, rs, i + 1) == overlap_msgs(nm, rs, 0));
        while j < n
            invariant
                i < n, i + 1 <= j <= n, n == rs.len(), rs == rects@, nm == strs_view(names@), names@.len() == n,
                strs_view(out@) + overlap_row(nm, rs, i as int, j as int) == o0 + overlap_row(nm, rs, i as int, i + 1),
            decreases n - j,
        {
            let a = rects[i];
            let b = rects[j];
            let ghost before = strs_view(out@);
            if a.0 < b.2 && a.2 > b.0 && a.1 < b.3 && a.3 > b.1 {
                let mut m = chars_of("Node overlap: ");
                append_name(&mut m, names, i);
                append_chars(&mut m, &chars_of(" with "));
                append_name(&mut m, names, j);
                push_str(&mut out, &m);
                assert(strs_view(out@) + overlap_row(nm, rs, i as int, j + 1) =~= before + overlap_row(nm, rs, i as int, j as int));
            } else {
                assert(overlap_row(nm, rs, i as int, j as int) =~= overlap_row(nm, rs, i as int, j + 1));
            }
            j += 1;
        }
        assert(overlap_row(nm, rs, i as int, n as int) =~= Seq::<Seq<char>>::empty());
        assert(strs_view(out@) + overlap_msgs(nm, rs, i + 1) =~= o0 + overlap_msgs(nm, rs, i as int));
        i += 1;
    }
    assert(overlap_msgs(nm, rs, n as int) =~= Seq::<Seq<char>>::empty());
    assert(strs_view(out@) =~= strs_view(out@) + overlap_msgs(nm, rs, n as int));
    out
}

/// The first node from `k` on that segment `a`-`b` crosses or crowds (`seg_verdict`).
fn seg_verdict_exec(a: Pt, b: Pt, rects: &[Rect], from: usize, to: usize) -> (r: Option<(usize, bool)>)
    requires crate::geometry::pt_ok(a), crate::geometry::pt_ok(b), rects_ok(rects@),
    ensures
        match r {
            Some((k, c)) => seg_verdict(a, b, rects@, from, to, 0) == Some((k as int, c)) && k < rects@.len(),
            None => seg_verdict(a, b, rects@, from, to, 0) is None,
        },
{
    let mut k: usize = 0;
    while k < rects.len()
        invariant
            k <= rects@.len(), rects_ok(rects@), crate::geometry::pt_ok(a), crate::geometry::pt_ok(b),
            seg_verdict(a, b, rects@, from, to, k as int) == seg_verdict(a, b, rects@, from, to, 0),
        decreases rects@.len() - k,
    {
        if k != from && k != to {
            assert(rect_ok(rects@[k as int]));
            if seg_hits_rect(a, b, rects[k]) {
                return Some((k, true));
            }
            if seg_too_close_to_rect(a, b, rects[k]) {
                return Some((k, false));
            }
        }
        k += 1;
    }
    None
}

pub struct ETallyX {
    pub bad_entry: usize,
    pub non_orth: usize,
    pub cross: usize,
    pub close: usize,
    pub msgs: Vec<String>,
}

pub open spec fn et_view(t: ETallyX) -> ETally {
    ETally { bad_entry: t.bad_entry as int, non_orth: t.non_orth as int, cross: t.cross as int, close: t.close as int, msgs: strs_view(t.msgs@) }
}

pub open spec fn et_sum(t: ETallyX) -> int {
    t.bad_entry + t.non_orth + t.cross + t.close
}

fn edge_name_exec(names: &[String], e: &EdgePath) -> (r: Vec<char>)
    requires e.from < names@.len(), e.to < names@.len(),
    ensures r@ == edge_name(strs_view(names@), *e),
{
    let mut v: Vec<char> = Vec::new();
    append_name(&mut v, names, e.from);
    append_chars(&mut v, &chars_of("->"));
    append_name(&mut v, names, e.to);
    assert(v@ =~= edge_name(strs_view(names@), *e));
    v
}

proof fn lemma_total_pts_step(es: Seq<EdgePath>, k: int)
    requires 0 <= k < es.len(),
    ensures total_pts(es, k + 1) == total_pts(es, k) + es[k].path@.len(),
{
}

proof fn lemma_total_pts_mono(es: Seq<EdgePath>, a: int, b: int)
    requires 0 <= a <= b <= es.len(),
    ensures total_pts(es, a) <= total_pts(es, b),
    decreases b - a,
{
    if a < b {
        lemma_total_pts_mono(es, a, b - 1);
    }
}

fn edge_checks(names: &[String], rects: &[Rect], es: &[EdgePath]) -> (r: ETallyX)
    requires validate_ok(names@, rects@, es@),
    ensures et_view(r) == edges_fold(etally0(), strs_view(names@), rects@, es@, 0),
        et_sum(r) <= 2 * total_pts(es@, es@.len() as int),
{
    let ghost nm = strs_view(names@);
    let ghost rs = rects@;
    let ghost target = edges_fold(etally0(), nm, rs, es@, 0);
    let mut t = ETallyX { bad_entry: 0, non_orth: 0, cross: 0, close: 0, msgs: Vec::new() };
    assert(et_view(t) =~= etally0()) by { assert(strs_view(t.msgs@) =~= Seq::<Seq<char>>::empty()); }
    let mut k: usize = 0;
    while k < es.len()
        invariant
            k <= es@.len(), validate_ok(names@, rects@, es@), nm == strs_view(names@), rs == rects@,
            target == edges_fold(etally0(), nm, rs, es@, 0),
            edges_fold(et_view(t), nm, rs, es@, k as int) == target,
            et_sum(t) <= 2 * total_pts(es@, k as int),
        decreases es@.len() - k,
    {
        let e = &es[k];
        proof {
            lemma_total_pts_step(es@, k as int);
            lemma_total_pts_mono(es@, k + 1, es@.len() as int);
        }
        let (ok, why) = incoming_dir_valid(e.path.as_slice(), rects[e.to]);
        let en = edge_name_exec(names, e);
        let ghost t0 = et_view(t);
        if !ok {
            let mut m = chars_of("Edge ");
            append_chars(&mut m, &en);
            append_chars(&mut m, &chars_of(" bad final-entry direction: "));
            append_chars(&mut m, &why_text_exec(why));
            push_str(&mut t.msgs, &m);
            t.bad_entry = t.bad_entry + 1;
        }
        let ghost t1 = et_view(t);
        assert(edge_step(t0, nm, rs, es@[k as int]) == segs_fold(t1, nm, rs, es@[k as int], 0));
        assert(!ok ==> e.path@.len() >= 2);
        let np = e.path.len();
        let mut i: usize = 0;
        while i + 1 < np
            invariant
                np == e.path@.len(), i + 1 <= np || np == 0, i <= np, np <= 0x8000, *e == es@[k as int], k < es@.len(),
                validate_ok(names@, rects@, es@), nm == strs_view(names@), rs == rects@, en@ == edge_name(nm, *e),
                segs_fold(et_view(t), nm, rs, *e, i as int) == segs_fold(t1, nm, rs, *e, 0),
                et_sum(t) <= 2 * total_pts(es@, k as int) + 1 + 2 * i,
                total_pts(es@, k as int) + np <= 0x8000,
            decreases np - i,
        {
            let a = e.path[i];
            let b = e.path[i + 1];
            assert(path_ok(e.path@));
            assert(crate::geometry::pt_ok(e.path@[i as int]) && crate::geometry::pt_ok(e.path@[i + 1]));
            let ghost s0 = et_view(t);
            if a.0 != b.0 && a.1 != b.1 {
                let mut m = chars_of("Non-orth segment on edge ");
                append_chars(&mut m, &en);
                append_chars(&mut m, &chars_of(": "));
                append_chars(&mut m, &pt_text_exec(a));
                append_chars(&mut m, &chars_of("->"));
                append_chars(&mut m, &pt_text_exec(b));
                push_str(&mut t.msgs, &m);
                t.non_orth = t.non_orth + 1;
            }
            match seg_verdict_exec(a, b, rects, e.from, e.to) {
                Some((nk, true)) => {
                    let mut m = chars_of("Edge ");
                    append_chars(&mut m, &en);
                    append_chars(&mut m, &chars_of(" crosses node "));
                    append_name(&mut m, names, nk);
                    push_str(&mut t.msgs, &m);
                    t.cross = t.cross + 1;
                },
                Some((nk, false)) => {
                    let mut m = chars_of("Edge ");
                    append_chars(&mut m, &en);
                    append_chars(&mut m, &chars_of(" too close to node "));
                    append_name(&mut m, names, nk);
                    push_str(&mut t.msgs, &m);
                    t.close = t.close + 1;
                },
                None => {},
            }
            assert(et_view(t) == seg_step(s0, nm, rs, *e, i as int));
            i += 1;
        }
        proof {
            if np >= 1 {
                assert(segs_fold(et_view(t), nm, rs, *e, i as int) == et_view(t));
            } else {
                assert(segs_fold(et_view(t), nm, rs, *e, i as int) == et_view(t));
            }
        }
        k += 1;
    }
    t
}


/// Total size of the first `k` groups.
pub open spec fn gsum(u: Seq<((usize, Pt), Seq<usize>)>, k: int) -> int
    decreases k,
{
    if k <= 0 || k > u.len() { 0 } else { gsum(u, k - 1) + u[k - 1].1.len() }
}

proof fn lemma_gsum_update(u: Seq<((usize, Pt), Seq<usize>)>, g: int, val: ((usize, Pt), Seq<usize>), k: int)
    requires 0 <= g < u.len(), 0 <= k <= u.len(),
    ensures gsum(u.update(g, val), k) == gsum(u, k) + if g < k { val.1.len() - u[g].1.len() } else { 0 },
    decreases k,
{
    if k > 0 {
        lemma_gsum_update(u, g, val, k - 1);
    }
}

proof fn lemma_gsum_push(u: Seq<((usize, Pt), Seq<usize>)>, val: ((usize, Pt), Seq<usize>), k: int)
    requires 0 <= k <= u.len(),
    ensures gsum(u.push(val), k) == gsum(u, k),
    decreases k,
{
    if k > 0 {
        lemma_gsum_push(u, val, k - 1);
    }
}

proof fn lemma_gsum_nonneg(u: Seq<((usize, Pt), Seq<usize>)>, a: int, b: int)
    requires 0 <= a <= b <= u.len(),
    ensures 0 <= gsum(u, a) <= gsum(u, b),
    decreases b,
{
    if b > a {
        lemma_gsum_nonneg(u, a, b - 1);
    } else if a > 0 {
        lemma_gsum_nonneg(u, 0, a - 1);
    }
}

proof fn lemma_group_index_range(u: Seq<((usize, Pt), Seq<usize>)>, key: (usize, Pt), m: int)
    requires 0 <= m <= u.len(),
    ensures -1 <= crate::scoring::group_index(u, key, m) < m,
    decreases m,
{
    if m > 0 {
        lemma_group_index_range(u, key, m - 1);
    }
}

/// The groups hold no more edges than there are, and each group's port is
/// on a node below `n` when every edge's target is.
proof fn lemma_usage_bounds(es: Seq<EdgePath>, k: int, n: int)
    requires 0 <= k <= es.len(), forall|x: int| 0 <= x < es.len() ==> (#[trigger] es[x]).to < n,
    ensures
        gsum(spec_port_usage(es, k), spec_port_usage(es, k).len() as int) <= k,
        forall|g: int| 0 <= g < spec_port_usage(es, k).len() ==> (#[trigger] spec_port_usage(es, k)[g]).0.0 < n,
    decreases k,
{
    if k > 0 {
        lemma_usage_bounds(es, k - 1, n);
        let u = spec_port_usage(es, k - 1);
        lemma_gsum_nonneg(u, 0, u.len() as int);
        if es[k - 1].path@.len() > 0 {
            let key = crate::scoring::port_key(es[k - 1]);
            let gi = crate::scoring::group_index(u, key, u.len() as int);
            lemma_group_index_range(u, key, u.len() as int);
            if gi >= 0 {
                let val = (key, u[gi].1.push((k - 1) as usize));
                lemma_gsum_update(u, gi, val, u.len() as int);
                let v = u.update(gi, val);
                assert forall|g: int| 0 <= g < v.len() implies (#[trigger] v[g]).0.0 < n by {
                    if g != gi { assert(v[g] == u[g]); }
                }
            } else {
                let val = (key, seq![(k - 1) as usize]);
                lemma_gsum_push(u, val, u.len() as int);
                let v = u.push(val);
                assert(gsum(v, v.len() as int) == gsum(v, u.len() as int) + 1);
                assert forall|g: int| 0 <= g < v.len() implies (#[trigger] v[g]).0.0 < n by {
                    if g < u.len() { assert(v[g] == u[g]); }
                }
            }
        }
    }
}

fn port_msgs_exec(names: &[String], rects: &[Rect], es: &[EdgePath]) -> (r: (usize, Vec<String>))
    requires validate_ok(names@, rects@, es@),
    ensures (r.0 as int, strs_view(r.1@)) == port_fold(strs_view(names@), spec_port_usage(es@, es@.len() as int), 0),
{
    let ghost nm = strs_view(names@);
    let _n = es.len();
    let u = input_port_usage(es);
    let ghost uv = usage_view(u@);
    proof {
        lemma_usage_bounds(es@, es@.len() as int, rects@.len() as int);
        lemma_gsum_nonneg(uv, 0, uv.len() as int);
    }
    assert(uv.len() == u@.len());
    let ghost target = port_fold(nm, uv, 0);
    let mut cnt: usize = 0;
    let mut msgs: Vec<String> = Vec::new();
    assert(strs_view(msgs@) =~= Seq::<Seq<char>>::empty());
    assert(strs_view(msgs@) + target.1 =~= target.1);
    let mut k: usize = 0;
    while k < u.len()
        invariant
            k <= u@.len(), uv == usage_view(u@), uv.len() == u@.len(), uv == spec_port_usage(es@, es@.len() as int),
            nm == strs_view(names@), names@.len() == rects@.len(), target == port_fold(nm, uv, 0),
            forall|g: int| 0 <= g < uv.len() ==> (#[trigger] uv[g]).0.0 < rects@.len(),
            gsum(uv, uv.len() as int) <= es@.len(), es@.len() <= usize::MAX,
            cnt <= gsum(uv, k as int),
            cnt + port_fold(nm, uv, k as int).0 == target.0,
            strs_view(msgs@) + port_fold(nm, uv, k as int).1 == target.1,
        decreases u@.len() - k,
    {
        proof { lemma_gsum_nonneg(uv, k + 1, uv.len() as int); }
        assert(uv[k as int] == (u@[k as int].0, u@[k as int].1@));
        let c = u[k].1.len();
        let key = u[k].0;
        if c > 1 {
            let mut m = chars_of("Input port reused on ");
            append_name(&mut m, names, key.0);
            append_chars(&mut m, &chars_of(" at "));
            append_chars(&mut m, &pt_text_exec(key.1));
            append_chars(&mut m, &chars_of(": "));
            append_chars(&mut m, &decimal(c));
            append_chars(&mut m, &chars_of(" edges"));
            let ghost m0 = strs_view(msgs@);
            push_str(&mut msgs, &m);
            assert(strs_view(msgs@) + port_fold(nm, uv, k + 1).1 =~= m0 + port_fold(nm, uv, k as int).1);
            cnt = cnt + (c - 1);
        }
        k += 1;
    }
    assert(port_fold(nm, uv, k as int).1 =~= Seq::<Seq<char>>::empty());
    assert(strs_view(msgs@) =~= strs_view(msgs@) + port_fold(nm, uv, k as int).1);
    (cnt, msgs)
}

proof fn lemma_edge_recs_len(e: EdgePath, i: int, h: bool)
    requires 0 <= i,
    ensures edge_recs(e, i, h).len() <= if i < e.path@.len() { e.path@.len() - i } else { 0 },
    decreases e.path@.len() - i,
{
    if i + 1 < e.path@.len() {
        lemma_edge_recs_len(e, i + 1, h);
    }
}

/// Each record's coordinates are within bounds and its nodes below `n`.
pub open spec fn recs_ok(segs: Seq<SegV>, n: int) -> bool {
    forall|k: int| 0 <= k < segs.len() ==> {
        let s = #[trigger] segs[k];
        crate::geometry::coord_ok(s.fixed as int) && crate::geometry::coord_ok(s.lo as int)
            && crate::geometry::coord_ok(s.hi as int) && s.from < n && s.to < n
    }
}

fn seg_records(es: &[EdgePath], horiz: bool, n: usize) -> (r: Vec<SegRec>)
    requires
        forall|k: int| 0 <= k < es@.len() ==> (#[trigger] es@[k]).from < n && es@[k].to < n && path_ok(es@[k].path@),
        total_pts(es@, es@.len() as int) <= 0x8000,
    ensures
        recs_view(r@) == all_recs(es@, 0, horiz),
        r@.len() <= total_pts(es@, es@.len() as int),
        recs_ok(recs_view(r@), n as int),
{
    let mut out: Vec<SegRec> = Vec::new();
    let ghost target = all_recs(es@, 0, horiz);
    assert(recs_view(out@) =~= Seq::<SegV>::empty());
    assert(recs_view(out@) + target =~= target);
    let mut k: usize = 0;
    while k < es.len()
        invariant
            k <= es@.len(), target == all_recs(es@, 0, horiz),
            forall|x: int| 0 <= x < es@.len() ==> (#[trigger] es@[x]).from < n && es@[x].to < n && path_ok(es@[x].path@),
            total_pts(es@, es@.len() as int) <= 0x8000,
            recs_view(out@) + all_recs(es@, k as int, horiz) == target,
            out@.len() <= total_pts(es@, k as int),
            recs_ok(recs_view(out@), n as int),
        decreases es@.len() - k,
    {
        let e = &es[k];
        proof {
            lemma_total_pts_step(es@, k as int);
            lemma_total_pts_mono(es@, k + 1, es@.len() as int);
        }
        let np = e.path.len();
        let ghost o0 = recs_view(out@);
        let ghost l0 = out@.len();
        let mut i: usize = 0;
        while i + 1 < np
            invariant
                np == e.path@.len(), i <= np, np <= 0x8000, *e == es@[k as int], k < es@.len(), e.from < n, e.to < n,
                path_ok(e.path@),
                recs_view(out@) + edge_recs(*e, i as int, horiz) == o0 + edge_recs(*e, 0, horiz),
                out@.len() <= l0 + i,
                recs_ok(recs_view(out@), n as int),
            decreases np - i,
        {
            let a = e.path[i];
            let b = e.path[i + 1];
            assert(crate::geometry::pt_ok(e.path@[i as int]) && crate::geometry::pt_ok(e.path@[i + 1]));
            let ghost before = recs_view(out@);
            let anchor = e.path[0];
            if a.1 == b.1 {
                if horiz {
                    out.push(SegRec { fixed: a.1, lo: min_i32(a.0, b.0), hi: max_i32(a.0, b.0), from: e.from, to: e.to,
                        label: crate::graph::clone_label(&e.label), anchor });
                }
            } else if a.0 == b.0 {
                if !horiz {
                    out.push(SegRec { fixed: a.0, lo: min_i32(a.1, b.1), hi: max_i32(a.1, b.1), from: e.from, to: e.to,
                        label: crate::graph::clone_label(&e.label), anchor });
                }
            }
            assert(recs_view(out@) =~= before + seg_rec_of(*e, i as int, horiz));
            assert(recs_view(out@) + edge_recs(*e, i + 1, horiz) =~= before + edge_recs(*e, i as int, horiz));
            i += 1;
        }
        assert(edge_recs(*e, i as int, horiz) =~= Seq::<SegV>::empty());
        assert(recs_view(out@) + all_recs(es@, k + 1, horiz) =~= o0 + all_recs(es@, k as int, horiz));
        k += 1;
    }
    assert(all_recs(es@, k as int, horiz) =~= Seq::<SegV>::empty());
    assert(recs_view(out@) =~= recs_view(out@) + all_recs(es@, k as int, horiz));
    out
}


pub struct PTallyX {
    pub allowed: usize,
    pub parallel: usize,
    pub loop_overlap: usize,
    pub micro: usize,
    pub close: usize,
    pub loop_close: usize,
    pub allowed_samples: Vec<String>,
    pub parallel_samples: Vec<String>,
}

pub open spec fn pt_view(t: PTallyX) -> PTally {
    PTally {
        allowed: t.allowed as int, parallel: t.parallel as int, loop_overlap: t.loop_overlap as int, micro: t.micro as int,
        close: t.close as int, loop_close: t.loop_close as int,
        allowed_samples: strs_view(t.allowed_samples@), parallel_samples: strs_view(t.parallel_samples@),
    }
}

/// Every counter is at most `b`.
pub open spec fn pt_bounded(t: PTallyX, b: int) -> bool {
    t.allowed <= b && t.parallel <= b && t.loop_overlap <= b && t.micro <= b && t.close <= b && t.loop_close <= b
}

fn sample_exec(names: &[String], s1: &SegRec, s2: &SegRec, ov: i32, horiz: bool) -> (r: Vec<char>)
    requires s1.from < names@.len(), s1.to < names@.len(), s2.from < names@.len(), s2.to < names@.len(),
    ensures r@ == sample_msg(strs_view(names@), s1@, s2@, ov as int, horiz),
{
    let mut m = if horiz { chars_of("H y=") } else { chars_of("V x=") };
    append_chars(&mut m, &int_text_exec(s1.fixed));
    append_chars(&mut m, &chars_of(" overlap="));
    append_chars(&mut m, &int_text_exec(ov));
    append_chars(&mut m, &chars_of(" edges "));
    append_name(&mut m, names, s1.from);
    append_chars(&mut m, &chars_of("->"));
    append_name(&mut m, names, s1.to);
    append_chars(&mut m, &chars_of(" vs "));
    append_name(&mut m, names, s2.from);
    append_chars(&mut m, &chars_of("->"));
    append_name(&mut m, names, s2.to);
    m
}

fn add_sample_exec(v: &mut Vec<String>, m: &Vec<char>)
    ensures strs_view(final(v)@) == add_sample(strs_view(old(v)@), m@),
{
    if v.len() < 8 {
        push_str(v, m);
    }
}

fn pair_step_exec(t: &mut PTallyX, names: &[String], s1: &SegRec, s2: &SegRec, horiz: bool)
    requires
        recs_ok(seq![s1@, s2@], names@.len() as int),
        pt_bounded(*old(t), 0xFFFF_0000),
    ensures
        pt_view(*final(t)) == pair_step(pt_view(*old(t)), strs_view(names@), s1@, s2@, horiz),
        pt_bounded(*final(t), 0xFFFF_0001),
        forall|b: int| pt_bounded(*old(t), b) ==> pt_bounded(*final(t), b + 1),
{
    assert(seq![s1@, s2@][0] == s1@ && seq![s1@, s2@][1] == s2@);
    if s1.from == s2.from && s1.to == s2.to {
        return;
    }
    let sib = (label_is(&s1.label, "next") && label_is(&s2.label, "done") && s1.to == s2.from)
        || (label_is(&s1.label, "done") && label_is(&s2.label, "next") && s1.from == s2.to);
    let allow = s1.from == s2.from && crate::geometry::pt_eq(s1.anchor, s2.anchor);
    let ov = min_i32(s1.hi, s2.hi) - max_i32(s1.lo, s2.lo);
    let d = abs_i32(s1.fixed - s2.fixed);
    if s1.fixed == s2.fixed && ov > 0 {
        if allow {
            t.allowed = t.allowed + 1;
            add_sample_exec(&mut t.allowed_samples, &sample_exec(names, s1, s2, ov, horiz));
        } else {
            t.parallel = t.parallel + 1;
            add_sample_exec(&mut t.parallel_samples, &sample_exec(names, s1, s2, ov, horiz));
            if sib {
                t.loop_overlap = t.loop_overlap + 1;
            }
        }
    } else {
        if !allow && ov > 0 && d <= STROKE_WIDTH * 2 + 1 {
            t.micro = t.micro + 1;
        }
        if d < MIN_CLOSE_VIOLATION && ov > 80 {
            t.close = t.close + 1;
        } else if sib && d < MIN_CLOSE_VIOLATION && ov > 24 {
            t.close = t.close + 1;
            t.loop_close = t.loop_close + 1;
        }
    }
}

fn tally_pairs(t: &mut PTallyX, names: &[String], segs: &Vec<SegRec>, horiz: bool)
    requires
        recs_ok(recs_view(segs@), names@.len() as int),
        segs@.len() <= 0x8000,
        pt_bounded(*old(t), 0x8000_0000),
    ensures
        pt_view(*final(t)) == pairs_fold(pt_view(*old(t)), strs_view(names@), recs_view(segs@), 0, horiz),
        forall|b: int| pt_bounded(*old(t), b) ==> pt_bounded(*final(t), b + segs@.len() * segs@.len()),
{
    let ghost nm = strs_view(names@);
    let ghost sv = recs_view(segs@);
    let ghost target = pairs_fold(pt_view(*t), nm, sv, 0, horiz);
    let ghost t_in = *t;
    let n = segs.len();
    let ghost nn: int = n * n;
    assert(nn <= 0x4000_0000) by (nonlinear_arith) requires n <= 0x8000, nn == n * n;
    let mut i: usize = 0;
    while i < n
        invariant
            i <= n, n == segs@.len(), n <= 0x8000, nn == n * n, nn <= 0x4000_0000, sv == recs_view(segs@), nm == strs_view(names@),
            recs_ok(sv, names@.len() as int), pt_bounded(t_in, 0x8000_0000),
            target == pairs_fold(pt_view(t_in), nm, sv, 0, horiz),
            pairs_fold(pt_view(*t), nm, sv, i as int, horiz) == target,
            forall|b: int| pt_bounded(t_in, b) ==> pt_bounded(*t, b + i * n),
            i * n <= nn,
        decreases n - i,
    {
        let ghost t_row = *t;
        let ghost r0 = pt_view(*t);
        assert(pairs_fold(r0, nm, sv, i as int, horiz) == pairs_fold(pair_row(r0, nm, sv, i as int, i + 1, horiz), nm, sv, i + 1, horiz));
        let mut j: usize = i + 1;
        while j < n
            invariant
                i < n, i + 1 <= j <= n, n == segs@.len(), n <= 0x8000, sv == recs_view(segs@), nm == strs_view(names@),
                recs_ok(sv, names@.len() as int),
                pair_row(pt_view(*t), nm, sv, i as int, j as int, horiz) == pair_row(r0, nm, sv, i as int, i + 1, horiz),
                forall|b: int| pt_bounded(t_row, b) ==> pt_bounded(*t, b + j - i - 1),
                pt_bounded(t_row, 0x8000_0000 + i * n), i * n <= 0x4000_0000,
            decreases n - j,
        {
            assert(sv[i as int] == segs@[i as int]@ && sv[j as int] == segs@[j as int]@);
            assert(recs_ok(seq![segs@[i as int]@, segs@[j as int]@], names@.len() as int)) by {
                assert(recs_ok(sv, names@.len() as int));
                let q = seq![segs@[i as int]@, segs@[j as int]@];
                assert forall|k: int| 0 <= k < q.len() implies {
                    let s = #[trigger] q[k];
                    crate::geometry::coord_ok(s.fixed as int) && crate::geometry::coord_ok(s.lo as int)
                        && crate::geometry::coord_ok(s.hi as int) && s.from < names@.len() && s.to < names@.len()
                } by {
                    if k == 0 { assert(q[k] == sv[i as int]); } else { assert(q[k] == sv[j as int]); }
                }
            }
            assert(pt_bounded(*t, 0x8000_0000 + i * n + j - i - 1));
            pair_step_exec(t, names, &segs[i], &segs[j], horiz);
            j += 1;
        }
        assert(i * n + n == (i + 1) * n) by (nonlinear_arith);
        assert((i + 1) * n <= nn) by (nonlinear_arith) requires i < n, nn == n * n;
        i += 1;
    }
    assert(pairs_fold(pt_view(*t), nm, sv, n as int, horiz) == pt_view(*t));
}


/// The result of the layout check: counts of each kind of finding, a few
/// sample descriptions, and the issue messages (at most 30 of them kept).
#[derive(Debug)]
pub struct LayoutReport {
    pub node_overlaps: usize,
    pub edge_node_crossings: usize,
    pub line_block_clearance_violations: usize,
    pub shared_input_ports: usize,
    pub bad_entry_direction_edges: usize,
    pub non_orth_segments: usize,
    pub edge_edge_overlaps: usize,
    pub parallel_overlap_segments: usize,
    pub parallel_overlap_samples: Vec<String>,
    pub allowed_parallel_overlap_segments: usize,
    pub allowed_parallel_overlap_samples: Vec<String>,
    pub close_parallel_segments: usize,
    pub micro_overlap_risk_segments: usize,
    pub loop_next_done_overlap_segments: usize,
    pub loop_next_done_close_segments: usize,
    pub issue_count: usize,
    pub issue_samples: Vec<String>,
    pub nodes: usize,
    pub edges: usize,
}

pub open spec fn report_view(r: LayoutReport) -> ReportV {
    ReportV {
        node_overlaps: r.node_overlaps as int,
        edge_node_crossings: r.edge_node_crossings as int,
        line_block_clearance_violations: r.line_block_clearance_violations as int,
        shared_input_ports: r.shared_input_ports as int,
        bad_entry_direction_edges: r.bad_entry_direction_edges as int,
        non_orth_segments: r.non_orth_segments as int,
        edge_edge_overlaps: r.edge_edge_overlaps as int,
        parallel_overlap_segments: r.parallel_overlap_segments as int,
        parallel_overlap_samples: strs_view(r.parallel_overlap_samples@),
        allowed_parallel_overlap_segments: r.allowed_parallel_overlap_segments as int,
        allowed_parallel_overlap_samples: strs_view(r.allowed_parallel_overlap_samples@),
        close_parallel_segments: r.close_parallel_segments as int,
        micro_overlap_risk_segments: r.micro_overlap_risk_segments as int,
        loop_next_done_overlap_segments: r.loop_next_done_overlap_segments as int,
        loop_next_done_close_segments: r.loop_next_done_close_segments as int,
        issue_count: r.issue_count as int,
        issue_samples: strs_view(r.issue_samples@),
        nodes: r.nodes as int,
        edges: r.edges as int,
    }
}

fn push_count_msg(out: &mut Vec<String>, prefix: &str, n: usize)
    ensures strs_view(final(out)@) == strs_view(old(out)@) + count_msg(prefix@, n as int),
{
    let ghost o0 = strs_view(out@);
    if n > 0 {
        let mut m = chars_of(prefix);
        append_chars(&mut m, &decimal(n));
        push_str(out, &m);
        assert(strs_view(out@) =~= o0 + count_msg(prefix@, n as int));
    } else {
        assert(strs_view(out@) =~= o0 + count_msg(prefix@, n as int));
    }
}

fn append_strings(out: &mut Vec<String>, v: Vec<String>)
    ensures strs_view(final(out)@) == strs_view(old(out)@) + strs_view(v@),
{
    let mut v = v;
    let ghost o0 = out@;
    let ghost v0 = v@;
    out.append(&mut v);
    assert(strs_view(out@) =~= strs_view(o0) + strs_view(v0));
}

/// Checks a layout: node rectangles `rects` (named `names`) and routed
/// edges `edge_paths` (see `spec_validate`).
pub fn validate_layout(names: &[String], rects: &[Rect], edge_paths: &[EdgePath]) -> (r: LayoutReport)
    requires validate_ok(names@, rects@, edge_paths@),
    ensures report_view(r) == spec_validate(strs_view(names@), rects@, edge_paths@),
{
    let ghost nm = strs_view(names@);
    let ov = overlap_msgs_exec(names, rects);
    let et = edge_checks(names, rects, edge_paths);
    let (shared, port_msgs) = port_msgs_exec(names, rects, edge_paths);
    let horiz = seg_records(edge_paths, true, rects.len());
    let vert = seg_records(edge_paths, false, rects.len());
    let mut t = PTallyX {
        allowed: 0, parallel: 0, loop_overlap: 0, micro: 0, close: 0, loop_close: 0,
        allowed_samples: Vec::new(), parallel_samples: Vec::new(),
    };
    assert(pt_view(t) =~= ptally0()) by {
        assert(strs_view(t.allowed_samples@) =~= Seq::<Seq<char>>::empty());
        assert(strs_view(t.parallel_samples@) =~= Seq::<Seq<char>>::empty());
    }
    let nh = horiz.len();
    let nv = vert.len();
    assert(nh * nh <= 0x4000_0000) by (nonlinear_arith) requires nh <= 0x8000;
    assert(nv * nv <= 0x4000_0000) by (nonlinear_arith) requires nv <= 0x8000;
    assert(pt_bounded(t, 0));
    tally_pairs(&mut t, names, &horiz, true);
    assert(pt_bounded(t, nh * nh));
    tally_pairs(&mut t, names, &vert, false);
    assert(pt_bounded(t, nh * nh + nv * nv));
    let ghost tv = pt_view(t);
    let n_over = ov.len();
    let mut issues: Vec<String> = ov;
    append_strings(&mut issues, et.msgs);
    append_strings(&mut issues, port_msgs);
    push_count_msg(&mut issues, "Parallel segments overlap: ", t.parallel);
    push_count_msg(&mut issues, "Parallel segments too close: ", t.close);
    push_count_msg(&mut issues, "Micro-overlap visual risk (very close short parallel runs): ", t.micro);
    push_count_msg(&mut issues, "Loop next/done siblings overlap: ", t.loop_overlap);
    push_count_msg(&mut issues, "Loop next/done siblings too close: ", t.loop_close);
    let ghost iv = strs_view(issues@);
    assert(iv =~= spec_issues(nm, rects@, edge_paths@));
    let issue_count = issues.len();
    let mut samples: Vec<String> = Vec::new();
    let mut k: usize = 0;
    while k < issues.len() && k < 30
        invariant
            k <= issues@.len(), k <= 30, iv == strs_view(issues@),
            strs_view(samples@) == iv.take(k as int),
        decreases issues@.len() - k,
    {
        let ghost s0 = strs_view(samples@);
        samples.push(issues[k].clone());
        assert(strs_view(samples@) =~= s0.push(iv[k as int]));
        assert(iv.take(k + 1) =~= iv.take(k as int).push(iv[k as int]));
        k += 1;
    }
    proof {
        if iv.len() <= 30 { assert(iv.take(k as int) =~= iv); }
    }
    LayoutReport {
        node_overlaps: n_over,
        edge_node_crossings: et.cross,
        line_block_clearance_violations: et.close,
        shared_input_ports: shared,
        bad_entry_direction_edges: et.bad_entry,
        non_orth_segments: et.non_orth,
        edge_edge_overlaps: t.parallel,
        parallel_overlap_segments: t.parallel,
        parallel_overlap_samples: t.parallel_samples,
        allowed_parallel_overlap_segments: t.allowed,
        allowed_parallel_overlap_samples: t.allowed_samples,
        close_parallel_segments: t.close,
        micro_overlap_risk_segments: t.micro,
        loop_next_done_overlap_segments: t.loop_overlap,
        loop_next_done_close_segments: t.loop_close,
        issue_count,
        issue_samples: samples,
        nodes: rects.len(),
        edges: edge_paths.len(),
    }
}


proof fn lemma_segs_fold_count(t: ETally, names: Seq<Seq<char>>, rs: Seq<Rect>, e: EdgePath, i: int)
    ensures ({
        let r = segs_fold(t, names, rs, e, i);
        &&& r.msgs.len() - t.msgs.len() == (r.non_orth - t.non_orth) + (r.cross - t.cross) + (r.close - t.close)
        &&& r.bad_entry == t.bad_entry
    }),
    decreases e.path@.len() - i,
{
    if !(i < 0 || i + 1 >= e.path@.len()) {
        lemma_segs_fold_count(seg_step(t, names, rs, e, i), names, rs, e, i + 1);
    }
}

proof fn lemma_edges_fold_count(t: ETally, names: Seq<Seq<char>>, rs: Seq<Rect>, es: Seq<EdgePath>, k: int)
    ensures ({
        let r = edges_fold(t, names, rs, es, k);
        r.msgs.len() - t.msgs.len() == (r.bad_entry - t.bad_entry) + (r.non_orth - t.non_orth) + (r.cross - t.cross) + (r.close - t.close)
    }),
    decreases es.len() - k,
{
    if !(k < 0 || k >= es.len()) {
        let e = es[k];
        let (ok, why) = spec_incoming_dir_valid(e.path@, rs[e.to as int]);
        let t1 = if !ok {
            ETally { bad_entry: t.bad_entry + 1, msgs: t.msgs.push("Edge "@ + edge_name(names, e) + " bad final-entry direction: "@ + why_text(why)), ..t }
        } else { t };
        lemma_segs_fold_count(t1, names, rs, e, 0);
        lemma_edges_fold_count(edge_step(t, names, rs, e), names, rs, es, k + 1);
    }
}

proof fn lemma_port_fold_count(names: Seq<Seq<char>>, u: Seq<((usize, Pt), Seq<usize>)>, k: int)
    ensures port_fold(names, u, k).1.len() <= port_fold(names, u, k).0,
    decreases u.len() - k,
{
    if !(k < 0 || k >= u.len()) {
        lemma_port_fold_count(names, u, k + 1);
    }
}

/// Every counted node overlap, bad entry direction, diagonal segment,
/// node crossing and node crowding has an issue message of its own; the
/// shared input ports add no more messages than surplus edges; and the
/// pair checks add one summary line per kind they counted.
pub proof fn lemma_issue_count(names: Seq<Seq<char>>, rs: Seq<Rect>, es: Seq<EdgePath>)
    ensures ({
        let r = spec_validate(names, rs, es);
        let pu = port_fold(names, spec_port_usage(es, es.len() as int), 0);
        let t = pairs_fold(pairs_fold(ptally0(), names, all_recs(es, 0, true), 0, true), names, all_recs(es, 0, false), 0, false);
        &&& r.issue_count == r.node_overlaps + r.bad_entry_direction_edges + r.non_orth_segments + r.edge_node_crossings
            + r.line_block_clearance_violations + pu.1.len() + summary_msgs(t).len()
        &&& pu.1.len() <= r.shared_input_ports
        &&& summary_msgs(t).len() == (if r.parallel_overlap_segments > 0 { 1int } else { 0int })
            + (if r.close_parallel_segments > 0 { 1int } else { 0int }) + (if r.micro_overlap_risk_segments > 0 { 1int } else { 0int })
            + (if r.loop_next_done_overlap_segments > 0 { 1int } else { 0int }) + (if r.loop_next_done_close_segments > 0 { 1int } else { 0int })
    }),
{
    lemma_edges_fold_count(etally0(), names, rs, es, 0);
    lemma_port_fold_count(names, spec_port_usage(es, es.len() as int), 0);
}

} // verus!
