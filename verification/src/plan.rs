//! Edge planning before routing: where each node's outgoing edges split,
//! which position an edge has among its source's outgoing edges, and the
//! order in which edges claim ports.
use vstd::prelude::*;
use crate::geometry::{Rect, Pt, Side, Shape, tdiv, iabs, imin, imax, spec_port_side, rect_ok, rects_ok, pt_ok, path_ok};
use crate::path::{spec_extend_unique, spec_dedup, copy_path, extend_unique, unique_ports};
use crate::geometry::port_side_from_point;
use crate::ports::{
    side_port_candidates, output_port_candidates, input_port_candidates, decision_output_side_order,
    choose_port_role, choose_input_port_prioritize_top, PortRole,
};
use crate::ports::{spec_side_ports, spec_output_ports, spec_input_ports, spec_decision_sides};
use crate::ports::{spec_choose_port, set_insert, spec_top_clear};
use crate::router::{small, small_pt, route_inputs_ok};
use crate::graph::opt_view;
use crate::layout::{RenderEdge, edges_in};
use crate::octave_flow::{spec_lower, lower_vec};
use crate::text::{chars_of, spec_trim, trim_vec};

verus! {

/// Strict lexicographic order of character sequences by code point, read
/// from position `i` on (std's order of `String`).
pub open spec fn seq_lt_from(a: Seq<char>, b: Seq<char>, i: int) -> bool
    decreases a.len() - i,
{
    if i < 0 || i >= a.len() {
        0 <= i < b.len()
    } else if i >= b.len() {
        false
    } else if (a[i] as u32) != (b[i] as u32) {
        (a[i] as u32) < (b[i] as u32)
    } else {
        seq_lt_from(a, b, i + 1)
    }
}

pub open spec fn seq_lt(a: Seq<char>, b: Seq<char>) -> bool {
    seq_lt_from(a, b, 0)
}

/// Neither sorts before the other.
pub open spec fn seq_eqv(a: Seq<char>, b: Seq<char>) -> bool {
    !seq_lt(a, b) && !seq_lt(b, a)
}

pub open spec fn codes_eq_from(a: Seq<char>, b: Seq<char>, i: int) -> bool {
    a.len() == b.len() && forall|j: int| i <= j < a.len() ==> (#[trigger] a[j] as u32) == (b[j] as u32)
}

proof fn lemma_lt_irrefl(a: Seq<char>, i: int)
    requires 0 <= i,
    ensures !seq_lt_from(a, a, i),
    decreases a.len() - i,
{
    if i < a.len() {
        lemma_lt_irrefl(a, i + 1);
    }
}

proof fn lemma_lt_trans(a: Seq<char>, b: Seq<char>, c: Seq<char>, i: int)
    requires 0 <= i, seq_lt_from(a, b, i), seq_lt_from(b, c, i),
    ensures seq_lt_from(a, c, i),
    decreases a.len() - i,
{
    if i < a.len() && i < b.len() && i < c.len() && (a[i] as u32) == (b[i] as u32) && (b[i] as u32) == (c[i] as u32) {
        lemma_lt_trans(a, b, c, i + 1);
    }
}

proof fn lemma_lt_eqv(a: Seq<char>, b: Seq<char>, i: int)
    requires 0 <= i <= a.len(), i <= b.len(),
    ensures (!seq_lt_from(a, b, i) && !seq_lt_from(b, a, i)) <==> codes_eq_from(a, b, i),
    decreases a.len() - i,
{
    if i < a.len() && i < b.len() {
        lemma_lt_eqv(a, b, i + 1);
        if (a[i] as u32) == (b[i] as u32) {
            if codes_eq_from(a, b, i + 1) {
                assert forall|j: int| i <= j < a.len() implies (#[trigger] a[j] as u32) == (b[j] as u32) by {
                    if j > i {
                        assert(i + 1 <= j);
                    }
                }
            }
            if codes_eq_from(a, b, i) {
                assert forall|j: int| i + 1 <= j < a.len() implies (#[trigger] a[j] as u32) == (b[j] as u32) by {
                    assert(i <= j);
                }
            }
        }
    }
}

proof fn lemma_lt_subst(a: Seq<char>, b: Seq<char>, c: Seq<char>, i: int)
    requires 0 <= i <= a.len(), codes_eq_from(a, b, i),
    ensures seq_lt_from(a, c, i) == seq_lt_from(b, c, i), seq_lt_from(c, a, i) == seq_lt_from(c, b, i),
    decreases a.len() - i,
{
    if i < a.len() {
        assert((a[i] as u32) == (b[i] as u32));
        assert forall|j: int| i + 1 <= j < a.len() implies (#[trigger] a[j] as u32) == (b[j] as u32) by {
            assert(i <= j);
        }
        lemma_lt_subst(a, b, c, i + 1);
    }
}

pub proof fn lemma_seq_lt_order(a: Seq<char>, b: Seq<char>, c: Seq<char>)
    ensures
        !seq_lt(a, a),
        seq_lt(a, b) && seq_lt(b, c) ==> seq_lt(a, c),
        seq_lt(a, b) ==> !seq_lt(b, a),
        seq_eqv(a, b) && seq_lt(b, c) ==> seq_lt(a, c),
        seq_eqv(a, b) && seq_lt(c, b) ==> seq_lt(c, a),
        seq_eqv(a, b) && seq_eqv(b, c) ==> seq_eqv(a, c),
        seq_eqv(a, b) ==> seq_eqv(b, a),
        seq_eqv(a, a),
{
    lemma_lt_irrefl(a, 0);
    if seq_lt(a, b) && seq_lt(b, c) {
        lemma_lt_trans(a, b, c, 0);
    }
    if seq_lt(a, b) && seq_lt(b, a) {
        lemma_lt_trans(a, b, a, 0);
    }
    lemma_lt_eqv(a, b, 0);
    lemma_lt_eqv(b, c, 0);
    lemma_lt_eqv(a, c, 0);
    if seq_eqv(a, b) {
        lemma_lt_subst(a, b, c, 0);
    }
    if seq_eqv(a, b) && seq_eqv(b, c) {
        assert forall|j: int| 0 <= j < a.len() implies (#[trigger] a[j] as u32) == (c[j] as u32) by {
            assert((a[j] as u32) == (b[j] as u32));
            assert((b[j] as u32) == (c[j] as u32));
        }
    }
}

/// Whether `a` sorts strictly before `b` as std orders strings.
#[verifier::spinoff_prover]
pub fn str_lt(a: &str, b: &str) -> (r: bool)
    ensures r == seq_lt(a@, b@),
{
    let x = chars_of(a);
    let y = chars_of(b);
    let mut i: usize = 0;
    while i < x.len() && i < y.len()
        invariant
            i <= x@.len(), i <= y@.len(), x@ == a@, y@ == b@,
            seq_lt(a@, b@) == seq_lt_from(a@, b@, i as int),
        decreases x@.len() - i,
    {
        if (x[i] as u32) != (y[i] as u32) {
            return (x[i] as u32) < (y[i] as u32);
        }
        i += 1;
    }
    i < y.len()
}

/// An edge label trimmed and lower-cased (the empty text when absent).
pub open spec fn label_lc(l: Option<Seq<char>>) -> Seq<char> {
    spec_lower(spec_trim(match l { Some(s) => s, None => Seq::empty() }))
}

#[verifier::spinoff_prover]
pub fn label_lc_exec(l: &Option<String>) -> (r: Vec<char>)
    ensures r@ == label_lc(opt_view(*l)),
{
    let raw = match l { Some(s) => chars_of(s.as_str()), None => Vec::new() };
    let t = trim_vec(&raw);
    lower_vec(&t)
}

/// Whether some edge leaves node `s`.
pub open spec fn has_out(es: Seq<RenderEdge>, s: int) -> bool {
    exists|k: int| 0 <= k < es.len() && (#[trigger] es[k]).from == s
}

/// Among the first `m` nodes, the sources whose bottom edge is level with
/// node `s`'s (`lt` false), or those of them whose name sorts before
/// `s`'s (`lt` true).
pub open spec fn row_count(names: Seq<Seq<char>>, rs: Seq<Rect>, es: Seq<RenderEdge>, s: int, m: int, lt: bool) -> int
    decreases m,
{
    if m <= 0 {
        0
    } else {
        let t = m - 1;
        let hit = has_out(es, t) && rs[t].3 == rs[s].3 && (!lt || seq_lt(names[t], names[s]));
        row_count(names, rs, es, s, m - 1, lt) + if hit { 1int } else { 0int }
    }
}

/// How far the split row of node `s`'s outgoing edges sits from the
/// common one: the sources level with it, in name order, spread 18 px
/// apart around zero.
pub open spec fn spec_split_offset(names: Seq<Seq<char>>, rs: Seq<Rect>, es: Seq<RenderEdge>, s: int) -> int {
    if has_out(es, s) {
        let n = rs.len() as int;
        (2 * row_count(names, rs, es, s, n, true) - row_count(names, rs, es, s, n, false) + 1) * 9
    } else {
        0
    }
}

pub open spec fn names_view(names: Seq<String>) -> Seq<Seq<char>> {
    names.map_values(|s: String| s@)
}

proof fn lemma_row_count_bounds(names: Seq<Seq<char>>, rs: Seq<Rect>, es: Seq<RenderEdge>, s: int, m: int, lt: bool)
    requires 0 <= m,
    ensures 0 <= row_count(names, rs, es, s, m, lt) <= m,
    decreases m,
{
    if m > 0 {
        lemma_row_count_bounds(names, rs, es, s, m - 1, lt);
    }
}

/// The split-row offset of every node (`spec_split_offset`).
#[verifier::spinoff_prover]
pub fn split_offsets(names: &[String], rects: &[Rect], edges: &[RenderEdge]) -> (r: Vec<i32>)
    requires
        names@.len() == rects@.len(),
        rects@.len() <= 0x10_0000,
        edges_in(edges@, rects@.len() as int),
    ensures
        r@.len() == rects@.len(),
        forall|s: int| 0 <= s < r@.len() ==>
            #[trigger] r@[s] == spec_split_offset(names_view(names@), rects@, edges@, s),
{
    let n = rects.len();
    let ghost nv = names_view(names@);
    let mut src: Vec<bool> = Vec::new();
    let mut i: usize = 0;
    while i < n
        invariant
            i <= n, n == rects@.len(), src@.len() == i,
            forall|q: int| 0 <= q < i ==> #[trigger] src@[q] == has_out(edges@, q),
        decreases n - i,
    {
        let mut found = false;
        let mut k: usize = 0;
        while k < edges.len()
            invariant
                k <= edges@.len(),
                found == exists|j: int| 0 <= j < k && (#[trigger] edges@[j]).from == i,
            decreases edges@.len() - k,
        {
            if edges[k].from == i {
                found = true;
            }
            k += 1;
        }
        src.push(found);
        i += 1;
    }
    let mut out: Vec<i32> = Vec::new();
    let mut s: usize = 0;
    while s < n
        invariant
            s <= n, n == rects@.len(), n == names@.len(), n <= 0x10_0000, src@.len() == n,
            nv == names_view(names@),
            forall|q: int| 0 <= q < n ==> #[trigger] src@[q] == has_out(edges@, q),
            out@.len() == s,
            forall|q: int| 0 <= q < s ==> #[trigger] out@[q] == spec_split_offset(nv, rects@, edges@, q),
        decreases n - s,
    {
        if !src[s] {
            out.push(0);
        } else {
            let mut same: usize = 0;
            let mut before: usize = 0;
            let mut t: usize = 0;
            while t < n
                invariant
                    t <= n, s < n, n == rects@.len(), n == names@.len(), n <= 0x10_0000, src@.len() == n,
                    nv == names_view(names@),
                    forall|q: int| 0 <= q < n ==> #[trigger] src@[q] == has_out(edges@, q),
                    same == row_count(nv, rects@, edges@, s as int, t as int, false),
                    before == row_count(nv, rects@, edges@, s as int, t as int, true),
                decreases n - t,
            {
                proof {
                    lemma_row_count_bounds(nv, rects@, edges@, s as int, t as int, false);
                    lemma_row_count_bounds(nv, rects@, edges@, s as int, t as int, true);
                }
                if src[t] && rects[t].3 == rects[s].3 {
                    same += 1;
                    if str_lt(names[t].as_str(), names[s].as_str()) {
                        before += 1;
                    }
                }
                t += 1;
            }
            proof {
                lemma_row_count_bounds(nv, rects@, edges@, s as int, n as int, false);
                lemma_row_count_bounds(nv, rects@, edges@, s as int, n as int, true);
            }
            let off = (2 * (before as i64) - (same as i64) + 1) * 9;
            out.push(off as i32);
        }
        s += 1;
    }
    out
}

/// Edges `j` and `k` join the same nodes with the same label.
pub open spec fn same_key(es: Seq<RenderEdge>, j: int, k: int) -> bool {
    es[j].from == es[k].from && es[j].to == es[k].to && opt_view(es[j].label) == opt_view(es[k].label)
}

/// How many of the first `m` edges leave node `s`.
pub open spec fn from_count(es: Seq<RenderEdge>, s: usize, m: int) -> int
    decreases m,
{
    if m <= 0 { 0 } else { from_count(es, s, m - 1) + if es[m - 1].from == s { 1int } else { 0int } }
}

/// The last of the first `m` edges with edge `k`'s key (`-1` if none).
pub open spec fn last_same(es: Seq<RenderEdge>, k: int, m: int) -> int
    decreases m,
{
    if m <= 0 { -1 } else if same_key(es, m - 1, k) { m - 1 } else { last_same(es, k, m - 1) }
}

/// Edge `k`'s position among its source's outgoing edges (an edge that
/// repeats another's key takes the position of the last such edge), and
/// the number of those edges.
pub open spec fn spec_out_pos(es: Seq<RenderEdge>, k: int) -> (int, int) {
    (from_count(es, es[k].from, last_same(es, k, es.len() as int)), from_count(es, es[k].from, es.len() as int))
}

proof fn lemma_from_count_bound(es: Seq<RenderEdge>, s: usize, m: int)
    requires 0 <= m,
    ensures 0 <= from_count(es, s, m) <= m,
    decreases m,
{
    if m > 0 {
        lemma_from_count_bound(es, s, m - 1);
    }
}

proof fn lemma_last_same_bounds(es: Seq<RenderEdge>, k: int, m: int)
    requires 0 <= k < m,
    ensures k <= last_same(es, k, m) < m,
    decreases m,
{
    if m - 1 > k && !same_key(es, m - 1, k) {
        lemma_last_same_bounds(es, k, m - 1);
    }
}

#[verifier::spinoff_prover]
fn label_eq(a: &Option<String>, b: &Option<String>) -> (r: bool)
    ensures r == (opt_view(*a) == opt_view(*b)),
{
    match (a, b) {
        (Some(x), Some(y)) => *x == *y,
        (None, None) => true,
        _ => false,
    }
}

/// Each edge's position among its source's outgoing edges and their
/// number (`spec_out_pos`).
#[verifier::spinoff_prover]
pub fn out_positions(edges: &[RenderEdge]) -> (r: Vec<(i32, i32)>)
    requires edges@.len() <= 0x1000_0000,
    ensures
        r@.len() == edges@.len(),
        forall|k: int| 0 <= k < r@.len() ==> #[trigger] r@[k].0 == spec_out_pos(edges@, k).0
            && r@[k].1 == spec_out_pos(edges@, k).1,
{
    let m = edges.len();
    let mut out: Vec<(i32, i32)> = Vec::new();
    let mut k: usize = 0;
    while k < m
        invariant
            k <= m, m == edges@.len(), m <= 0x1000_0000, out@.len() == k,
            forall|q: int| 0 <= q < k ==> #[trigger] out@[q].0 == spec_out_pos(edges@, q).0
                && out@[q].1 == spec_out_pos(edges@, q).1,
        decreases m - k,
    {
        let mut last: usize = k;
        let mut j: usize = 0;
        while j < m
            invariant
                j <= m, k < m, m == edges@.len(),
                last == if last_same(edges@, k as int, j as int) < 0 { k as int } else { last_same(edges@, k as int, j as int) },
            decreases m - j,
        {
            if edges[j].from == edges[k].from && edges[j].to == edges[k].to && label_eq(&edges[j].label, &edges[k].label) {
                last = j;
            }
            j += 1;
        }
        proof { lemma_last_same_bounds(edges@, k as int, m as int); }
        let src = edges[k].from;
        let mut before: usize = 0;
        let mut total: usize = 0;
        let mut j: usize = 0;
        while j < m
            invariant
                j <= m, m == edges@.len(), m <= 0x1000_0000, last < m, src == edges@[k as int].from, k < m,
                before == from_count(edges@, src, if (j as int) < (last as int) { j as int } else { last as int }),
                total == from_count(edges@, src, j as int),
            decreases m - j,
        {
            proof {
                lemma_from_count_bound(edges@, src, j as int);
            }
            if edges[j].from == src {
                total += 1;
                if j < last {
                    before += 1;
                }
            }
            j += 1;
        }
        proof {
            lemma_from_count_bound(edges@, src, m as int);
            lemma_from_count_bound(edges@, src, last as int);
        }
        out.push((before as i32, total as i32));
        k += 1;
    }
    out
}

pub open spec fn rect_cx(r: Rect) -> int {
    tdiv(r.0 + r.2, 2)
}

/// Whether edge `k` runs back up the chart: as the graph file says, else
/// when it does not go to a deeper level or is labelled `next`.
pub open spec fn order_is_back(vs: Seq<i32>, es: Seq<RenderEdge>, k: int) -> bool {
    let sl = vs[es[k].from as int];
    let dl = vs[es[k].to as int];
    match es[k].back_edge {
        Some(b) => b,
        None => dl <= sl || label_lc(opt_view(es[k].label)) == "next"@,
    }
}

/// Edges from above (forward edges into a deeper level) claim a
/// destination's ports before the others.
pub open spec fn order_group(vs: Seq<i32>, es: Seq<RenderEdge>, k: int) -> int {
    let sl = vs[es[k].from as int];
    let dl = vs[es[k].to as int];
    if sl < dl && !order_is_back(vs, es, k) { 0 } else { 1 }
}

pub open spec fn order_dist(rs: Seq<Rect>, es: Seq<RenderEdge>, k: int) -> int {
    iabs(rect_cx(rs[es[k].from as int]) - rect_cx(rs[es[k].to as int]))
}

/// The order in which edges claim ports: by destination name, then those
/// from above first, then by horizontal distance between the two nodes,
/// then by position in the graph.
pub open spec fn edge_before(nv: Seq<Seq<char>>, vs: Seq<i32>, rs: Seq<Rect>, es: Seq<RenderEdge>, a: int, b: int) -> bool {
    let na = nv[es[a].to as int];
    let nb = nv[es[b].to as int];
    let ga = order_group(vs, es, a);
    let gb = order_group(vs, es, b);
    let da = order_dist(rs, es, a);
    let db = order_dist(rs, es, b);
    seq_lt(na, nb) || (seq_eqv(na, nb) && (ga < gb || (ga == gb && (da < db || (da == db && a < b)))))
}

proof fn lemma_edge_before_order(nv: Seq<Seq<char>>, vs: Seq<i32>, rs: Seq<Rect>, es: Seq<RenderEdge>, a: int, b: int, c: int)
    ensures
        !edge_before(nv, vs, rs, es, a, a),
        edge_before(nv, vs, rs, es, a, b) && edge_before(nv, vs, rs, es, b, c) ==> edge_before(nv, vs, rs, es, a, c),
        a != b ==> edge_before(nv, vs, rs, es, a, b) || edge_before(nv, vs, rs, es, b, a),
        edge_before(nv, vs, rs, es, a, b) ==> !edge_before(nv, vs, rs, es, b, a),
{
    let na = nv[es[a].to as int];
    let nb = nv[es[b].to as int];
    let nc = nv[es[c].to as int];
    lemma_seq_lt_order(na, nb, nc);
    lemma_seq_lt_order(nb, na, nc);
    lemma_seq_lt_order(nb, nc, na);
    lemma_seq_lt_order(na, nc, nb);
    lemma_seq_lt_order(nc, nb, na);
    lemma_seq_lt_order(nc, na, nb);
}

/// The port-claiming order of the edges: a permutation of `0..m` sorted
/// by `edge_before`.
#[verifier::spinoff_prover]
pub fn edge_order(names: &[String], levels: &[i32], rects: &[Rect], edges: &[RenderEdge]) -> (order: Vec<usize>)
    requires
        names@.len() == rects@.len(), levels@.len() == rects@.len(),
        edges_in(edges@, rects@.len() as int),
        crate::layout::small_rects(rects@),
    ensures
        order@.len() == edges@.len(),
        forall|i: int| 0 <= i < order@.len() ==> #[trigger] order@[i] < edges@.len(),
        forall|q: int| 0 <= q < edges@.len() ==> #[trigger] hits(order@, q),
        forall|i: int, j: int| 0 <= i < j < order@.len() ==>
            edge_before(names_view(names@), levels@, rects@, edges@, #[trigger] order@[i] as int, #[trigger] order@[j] as int),
{
    let ghost nv = names_view(names@);
    let ghost vs = levels@;
    let ghost rs = rects@;
    let ghost es = edges@;
    let m = edges.len();
    let mut groups: Vec<i32> = Vec::new();
    let mut dists: Vec<i64> = Vec::new();
    let mut k: usize = 0;
    while k < m
        invariant
            k <= m, m == es.len(), es == edges@, vs == levels@, rs == rects@,
            levels@.len() == rects@.len(), edges_in(es, rects@.len() as int), crate::layout::small_rects(rs),
            groups@.len() == k, dists@.len() == k,
            forall|q: int| 0 <= q < k ==> #[trigger] groups@[q] == order_group(vs, es, q) && dists@[q] == order_dist(rs, es, q),
        decreases m - k,
    {
        let e = &edges[k];
        let sl = levels[e.from];
        let dl = levels[e.to];
        let is_back = match e.back_edge {
            Some(b) => b,
            None => {
                let lc = label_lc_exec(&e.label);
                let next = chars_of("next");
                dl <= sl || crate::text::eq_vec(&lc, &next)
            },
        };
        proof {
            reveal_strlit("next");
            assert(is_back == order_is_back(vs, es, k as int));
        }
        groups.push(if sl < dl && !is_back { 0 } else { 1 });
        let rf = rects[e.from];
        let rt = rects[e.to];
        proof {
            assert(crate::layout::small_rect(rs[es[k as int].from as int]));
            assert(crate::layout::small_rect(rs[es[k as int].to as int]));
        }
        let d = ((rf.0 + rf.2) / 2) as i64 - ((rt.0 + rt.2) / 2) as i64;
        assert(d == rect_cx(rs[es[k as int].from as int]) - rect_cx(rs[es[k as int].to as int]));
        dists.push(if d < 0 { -d } else { d });
        k += 1;
    }
    let mut taken: Vec<bool> = Vec::new();
    let mut k: usize = 0;
    while k < m
        invariant
            k <= m, taken@.len() == k,
            forall|q: int| 0 <= q < k ==> !#[trigger] taken@[q],
        decreases m - k,
    {
        taken.push(false);
        k += 1;
    }
    proof {
        assert forall|q: int| 0 <= q <= m implies #[trigger] count_true(taken@, q) == 0 by {
            lemma_count_zero(taken@, q);
        }
    }
    let mut order: Vec<usize> = Vec::new();
    while order.len() < m
        invariant
            m == es.len(), es == edges@, vs == levels@, rs == rects@, nv == names_view(names@),
            names@.len() == rects@.len(), edges_in(es, rects@.len() as int),
            groups@.len() == m, dists@.len() == m,
            forall|q: int| 0 <= q < m ==> #[trigger] groups@[q] == order_group(vs, es, q) && dists@[q] == order_dist(rs, es, q),
            taken@.len() == m, order@.len() <= m,
            forall|i: int| 0 <= i < order@.len() ==> #[trigger] order@[i] < m && taken@[order@[i] as int],
            forall|i: int, j: int| 0 <= i < j < order@.len() ==> #[trigger] order@[i] != #[trigger] order@[j],
            forall|q: int| 0 <= q < m && taken@[q] ==> exists|i: int| 0 <= i < order@.len() && #[trigger] order@[i] == q,
            count_true(taken@, m as int) == order@.len(),
            forall|i: int, j: int| 0 <= i < j < order@.len() ==>
                edge_before(nv, vs, rs, es, #[trigger] order@[i] as int, #[trigger] order@[j] as int),
            forall|i: int, q: int| 0 <= i < order@.len() && 0 <= q < m && !taken@[q] ==>
                #[trigger] edge_before(nv, vs, rs, es, order@[i] as int, q),
        decreases m - order@.len(),
    {
        let ghost cnt = order@.len();
        proof {
            // an untaken index exists: otherwise the order would hold m distinct indices already
            if forall|q: int| 0 <= q < m ==> taken@[q] {
                lemma_perm_full(order@, m as int);
                let q = choose|q: int| 0 <= q < m && !#[trigger] hits(order@, q);
                assert(taken@[q]);
            }
        }
        let mut best: usize = m;
        let mut q: usize = 0;
        while q < m
            invariant
                q <= m, m == es.len(), es == edges@, vs == levels@, rs == rects@, nv == names_view(names@),
                names@.len() == rects@.len(), edges_in(es, rects@.len() as int),
                groups@.len() == m, dists@.len() == m, taken@.len() == m,
                forall|r: int| 0 <= r < m ==> #[trigger] groups@[r] == order_group(vs, es, r) && dists@[r] == order_dist(rs, es, r),
                best == m || (best < q && !taken@[best as int]),
                best == m ==> forall|r: int| 0 <= r < q ==> taken@[r],
                best < m ==> forall|r: int| 0 <= r < q && !taken@[r] && r != best ==> edge_before(nv, vs, rs, es, best as int, r),
            decreases m - q,
        {
            if !taken[q] {
                if best == m {
                    best = q;
                } else {
                    let e_q = &edges[q];
                    let e_b = &edges[best];
                    let nq = names[e_q.to].as_str();
                    let nb = names[e_b.to].as_str();
                    let lt_qb = str_lt(nq, nb);
                    let lt_bq = str_lt(nb, nq);
                    let q_first = lt_qb || (!lt_bq && (groups[q] < groups[best] || (groups[q] == groups[best]
                        && (dists[q] < dists[best] || (dists[q] == dists[best] && q < best)))));
                    proof {
                        assert(nv[es[q as int].to as int] == nq@);
                        assert(nv[es[best as int].to as int] == nb@);
                        assert(q_first == edge_before(nv, vs, rs, es, q as int, best as int));
                        assert forall|r: int| 0 <= r < q && !taken@[r] && r != best implies
                            edge_before(nv, vs, rs, es, (if q_first { q } else { best }) as int, r) by {
                            lemma_edge_before_order(nv, vs, rs, es, q as int, best as int, r);
                        }
                        lemma_edge_before_order(nv, vs, rs, es, best as int, q as int, q as int);
                    }
                    if q_first {
                        best = q;
                    }
                }
            }
            q += 1;
        }
        proof {
            if best == m {
                assert(false);
            }
            assert forall|i: int| 0 <= i < order@.len() implies #[trigger] order@[i] != best by {
                assert(taken@[order@[i] as int]);
            }
        }
        let ghost old_order = order@;
        let ghost old_taken = taken@;
        order.push(best);
        taken.set(best, true);
        proof {
            lemma_count_set(old_taken, best as int, m as int);
            assert(taken@ == old_taken.update(best as int, true));
            assert forall|r: int| 0 <= r < m && taken@[r] implies exists|i: int| 0 <= i < order@.len() && #[trigger] order@[i] == r by {
                if r == best {
                    assert(order@[cnt as int] == r);
                } else {
                    assert(old_taken[r]);
                    let i = choose|i: int| 0 <= i < old_order.len() && old_order[i] == r;
                    assert(order@[i] == r);
                }
            }
            assert forall|i: int, j: int| 0 <= i < j < order@.len() implies
                edge_before(nv, vs, rs, es, #[trigger] order@[i] as int, #[trigger] order@[j] as int) by {
                if j == cnt {
                    assert(order@[i] == old_order[i]);
                    assert(!old_taken[best as int]);
                }
            }
            assert forall|i: int, r: int| 0 <= i < order@.len() && 0 <= r < m && !taken@[r] implies
                #[trigger] edge_before(nv, vs, rs, es, order@[i] as int, r) by {
                if i == cnt {
                    assert(r != best);
                } else {
                    assert(order@[i] == old_order[i]);
                }
            }
        }
    }
    proof {
        lemma_count_full(taken@, m as int);
        assert forall|q: int| 0 <= q < m implies #[trigger] hits(order@, q) by {
            assert(taken@[q]);
        }
    }
    order
}

/// How many of the first `m` flags are set.
pub open spec fn count_true(s: Seq<bool>, m: int) -> int
    decreases m,
{
    if m <= 0 { 0 } else { count_true(s, m - 1) + if s[m - 1] { 1int } else { 0int } }
}

pub proof fn lemma_count_set(s: Seq<bool>, b: int, m: int)
    requires 0 <= b < s.len(), !s[b], 0 <= m <= s.len(),
    ensures count_true(s.update(b, true), m) == count_true(s, m) + if b < m { 1int } else { 0int },
    decreases m,
{
    if m > 0 {
        lemma_count_set(s, b, m - 1);
    }
}

pub proof fn lemma_count_full(s: Seq<bool>, m: int)
    requires 0 <= m <= s.len(), count_true(s, m) >= m,
    ensures forall|q: int| 0 <= q < m ==> #[trigger] s[q],
    decreases m,
{
    if m > 0 {
        lemma_count_le(s, m - 1);
        lemma_count_full(s, m - 1);
    }
}

pub proof fn lemma_count_zero(s: Seq<bool>, m: int)
    requires m <= s.len(), forall|q: int| 0 <= q < s.len() ==> !#[trigger] s[q],
    ensures count_true(s, m) == 0,
    decreases m,
{
    if m > 0 {
        lemma_count_zero(s, m - 1);
    }
}

pub proof fn lemma_count_le(s: Seq<bool>, m: int)
    requires 0 <= m,
    ensures 0 <= count_true(s, m) <= m,
    decreases m,
{
    if m > 0 {
        lemma_count_le(s, m - 1);
    }
}

pub open spec fn hits(order: Seq<usize>, q: int) -> bool {
    exists|i: int| 0 <= i < order.len() && order[i] == q
}

proof fn lemma_perm_full(order: Seq<usize>, m: int)
    requires
        order.len() < m,
    ensures
        exists|q: int| 0 <= q < m && !#[trigger] hits(order, q),
{
    let f = |q: int| choose|i: int| 0 <= i < order.len() && order[i] == q;
    lemma_pigeon(order, m, f);
    let q = choose|q: int| 0 <= q < m && !(0 <= #[trigger] f(q) < order.len() && order[f(q)] == q);
    assert(!hits(order, q));
}

/// Fewer than `m` positions cannot hold all of `0..m`: some value is missed.
proof fn lemma_pigeon(order: Seq<usize>, m: int, f: spec_fn(int) -> int)
    requires
        order.len() < m,
    ensures
        exists|q: int| 0 <= q < m && !(0 <= #[trigger] f(q) < order.len() && order[f(q)] == q),
    decreases m, order.len(),
{
    if forall|q: int| 0 <= q < m ==> 0 <= #[trigger] f(q) < order.len() && order[f(q)] == q {
        if order.len() == 0 {
            assert(0 <= f(0) < order.len());
        } else {
            let last = order.len() - 1;
            let v = order[last] as int;
            let sub = order.take(last);
            if 0 <= v < m {
                let g = |q: int| if q < v { f(q) } else { f(q + 1) };
                let sub2 = Seq::new(last as nat, |i: int| {
                    let x = order[i] as int;
                    (if x < v { x } else { x - 1 }) as usize
                });
                lemma_pigeon(sub2, m - 1, g);
                let q = choose|q: int| 0 <= q < m - 1 && !(0 <= #[trigger] g(q) < sub2.len() && sub2[g(q)] == q);
                let qq = if q < v { q } else { q + 1 };
                assert(0 <= f(qq) < order.len() && order[f(qq)] == qq);
                if f(qq) == last {
                    assert(order[last] == qq);
                }
                assert(false);
            } else {
                lemma_pigeon(sub, m, f);
                let q = choose|q: int| 0 <= q < m && !(0 <= #[trigger] f(q) < sub.len() && sub[f(q)] == q);
                assert(0 <= f(q) < order.len() && order[f(q)] == q);
                if f(q) == last {
                    assert(order[last] as int == q);
                }
                assert(false);
            }
        }
    }
}
/// Whether node `i` is the flowchart's `End` terminator.
pub open spec fn spec_is_end(shapes: Seq<Shape>, texts: Seq<Seq<char>>, i: int) -> bool {
    shapes[i] == Shape::Terminator && spec_lower(spec_trim(texts[i])) == "end"@
}

pub open spec fn texts_view(texts: Seq<String>) -> Seq<Seq<char>> {
    texts.map_values(|s: String| s@)
}

/// The leftmost left edge among the first `m` nodes (`0` for none).
pub open spec fn min_x1(rs: Seq<Rect>, m: int) -> int
    decreases m,
{
    if m <= 0 { 0 } else if m == 1 { rs[0].0 as int } else { imin(min_x1(rs, m - 1), rs[m - 1].0 as int) }
}

/// The rightmost right edge among the first `m` nodes (`w` for none).
pub open spec fn max_x2(rs: Seq<Rect>, m: int, w: int) -> int
    decreases m,
{
    if m <= 0 { w } else if m == 1 { rs[0].2 as int } else { imax(max_x2(rs, m - 1, w), rs[m - 1].2 as int) }
}

/// The static inputs of edge planning, as sequences.
pub ghost struct PlanIn {
    pub shapes: Seq<Shape>,
    pub ends: Seq<bool>,
    pub vs: Seq<i32>,
    pub rs: Seq<Rect>,
    pub es: Seq<RenderEdge>,
    pub offs: Seq<i32>,
    pub w: int,
}

pub open spec fn center_x(p: PlanIn) -> int {
    tdiv(min_x1(p.rs, p.rs.len() as int) + max_x2(p.rs, p.rs.len() as int, p.w), 2)
}

/// Whether edge `k` runs back up: as the graph file says, else when it
/// does not go to a deeper level.
pub open spec fn plan_is_back(p: PlanIn, k: int) -> bool {
    match p.es[k].back_edge {
        Some(b) => b,
        None => p.vs[p.es[k].to as int] <= p.vs[p.es[k].from as int],
    }
}

/// The side a back edge, a `next` edge or an edge into `End` leaves by:
/// towards the nearer outer margin.
pub open spec fn base_prefer(p: PlanIn, k: int) -> Option<Side> {
    let e = p.es[k];
    let lbl = label_lc(opt_view(e.label));
    if plan_is_back(p, k) || lbl == "next"@ || p.ends[e.to as int] {
        if rect_cx(p.rs[e.from as int]) <= center_x(p) { Some(Side::Left) } else { Some(Side::Right) }
    } else {
        None
    }
}

/// The preferred side of edge `k`: for a decision, the side the target
/// lies on (none when nearly straight below); else `base_prefer`.
pub open spec fn spec_prefer(p: PlanIn, k: int) -> Option<Side> {
    let e = p.es[k];
    if p.shapes[e.from as int] == Shape::Decision {
        let dx = rect_cx(p.rs[e.to as int]) - rect_cx(p.rs[e.from as int]);
        if dx < -16 { Some(Side::Left) } else if dx > 16 { Some(Side::Right) } else { None }
    } else {
        base_prefer(p, k)
    }
}

/// The ports of the sides in `sides`, the first `k` of them, without repeats.
pub open spec fn ext_sides(r: Rect, shape: Shape, sides: Seq<Side>, k: int) -> Seq<Pt>
    decreases k,
{
    if k <= 0 { Seq::empty() } else { spec_extend_unique(ext_sides(r, shape, sides, k - 1), spec_side_ports(r, shape, sides[k - 1])) }
}

/// Candidate source ports of edge `k`: for a decision, the ports of its
/// sides in the order its label calls for; else the usual output ports.
pub open spec fn spec_src_cands(p: PlanIn, k: int) -> Seq<Pt> {
    let e = p.es[k];
    let sr = p.rs[e.from as int];
    let dr = p.rs[e.to as int];
    let sh = p.shapes[e.from as int];
    let sides = spec_decision_sides(sr, dr, label_lc(opt_view(e.label)));
    let ordered = ext_sides(sr, sh, sides, sides.len() as int);
    if sh == Shape::Decision && ordered.len() > 0 { ordered } else { spec_output_ports(sr, sh, spec_prefer(p, k)) }
}

/// Candidate target ports of edge `k`, the side facing the source first.
pub open spec fn spec_dst_cands(p: PlanIn, k: int) -> Seq<Pt> {
    let e = p.es[k];
    let approach = if rect_cx(p.rs[e.from as int]) < rect_cx(p.rs[e.to as int]) { Side::Left } else { Side::Right };
    spec_input_ports(p.rs[e.to as int], p.shapes[e.to as int], Some(approach))
}

/// Everything the router is given for one edge.
#[derive(Debug)]
pub struct EdgePlan {
    pub out_idx: i32,
    pub out_count: i32,
    pub src_split_y: i32,
    pub force_center: bool,
    pub prefer_side: Option<Side>,
    pub sx_override: Pt,
    pub tx_override: Pt,
    pub src_side: Side,
    pub dst_side: Side,
    pub src_port_variants: Vec<Pt>,
    pub dst_port_variants: Vec<Pt>,
    pub side_lane_x: Option<i32>,
    pub bounds: (i32, i32),
}

/// What edge `k`'s plan holds whatever ports were free when it was made.
pub open spec fn plan_ok(p: PlanIn, k: int, m: EdgePlan) -> bool {
    let e = p.es[k];
    let sr = p.rs[e.from as int];
    let dr = p.rs[e.to as int];
    &&& m.out_idx == spec_out_pos(p.es, k).0 && m.out_count == spec_out_pos(p.es, k).1
    &&& m.src_split_y == sr.3 + 28 + p.offs[e.from as int]
    &&& m.force_center == p.ends[e.to as int]
    &&& m.prefer_side == spec_prefer(p, k)
    &&& spec_src_cands(p, k).contains(m.sx_override)
    &&& spec_dst_cands(p, k).contains(m.tx_override)
    &&& m.src_side == spec_port_side(sr, m.sx_override)
    &&& m.dst_side == spec_port_side(dr, m.tx_override)
    &&& m.src_port_variants@ == spec_dedup(spec_src_cands(p, k))
    &&& m.dst_port_variants@ == spec_dedup(spec_dst_cands(p, k))
    &&& m.bounds == (40i32, (p.w - 40) as i32)
    &&& (base_prefer(p, k) is None <==> m.side_lane_x is None)
    &&& (base_prefer(p, k) == Some(Side::Left) ==>
            exists|j: int| 0 <= j < p.rs.len() && m.side_lane_x == Some(#[trigger] left_lane(p, j)))
    &&& (base_prefer(p, k) == Some(Side::Right) ==>
            exists|j: int| 0 <= j < p.rs.len() && m.side_lane_x == Some(#[trigger] right_lane(p, j)))
}

/// The `j`-th outer lane left of all nodes, and the `j`-th right of them.
pub open spec fn left_lane(p: PlanIn, j: int) -> i32 {
    (min_x1(p.rs, p.rs.len() as int) - 220 - 130 * j) as i32
}

pub open spec fn right_lane(p: PlanIn, j: int) -> i32 {
    (max_x2(p.rs, p.rs.len() as int, p.w) + 220 + 130 * j) as i32
}

/// What planning has claimed so far: the ports used at each node as an
/// input and as an output, the outer lane each source took on either side,
/// and how many lanes each side has handed out.
pub ghost struct Claims {
    pub ins: Seq<Seq<Pt>>,
    pub outs: Seq<Seq<Pt>>,
    pub left: Seq<Option<i32>>,
    pub right: Seq<Option<i32>>,
    pub lc: int,
    pub rc: int,
}

/// Nothing claimed, for `n` nodes.
pub open spec fn no_claims(n: int) -> Claims {
    Claims {
        ins: Seq::new(n as nat, |i: int| Seq::<Pt>::empty()),
        outs: Seq::new(n as nat, |i: int| Seq::<Pt>::empty()),
        left: Seq::new(n as nat, |i: int| None::<i32>),
        right: Seq::new(n as nat, |i: int| None::<i32>),
        lc: 0,
        rc: 0,
    }
}

/// Edge `k`'s source takes the next free outer lane on its `base_prefer`
/// side, unless it has one there already.
pub open spec fn claim_lane(p: PlanIn, c: Claims, k: int) -> Claims {
    let f = p.es[k].from as int;
    match base_prefer(p, k) {
        Some(Side::Left) => if c.left[f] is None {
            Claims { left: c.left.update(f, Some(left_lane(p, c.lc))), lc: c.lc + 1, ..c }
        } else { c },
        Some(Side::Right) => if c.right[f] is None {
            Claims { right: c.right.update(f, Some(right_lane(p, c.rc))), rc: c.rc + 1, ..c }
        } else { c },
        _ => c,
    }
}

/// The outer lane of edge `k` when it is planned against `c`.
pub open spec fn lane_of(p: PlanIn, c: Claims, k: int) -> Option<i32> {
    let f = p.es[k].from as int;
    match base_prefer(p, k) {
        Some(Side::Left) => claim_lane(p, c, k).left[f],
        Some(Side::Right) => claim_lane(p, c, k).right[f],
        _ => None,
    }
}

pub open spec fn mid(r: Rect) -> Pt {
    (tdiv(r.0 + r.2, 2) as i32, tdiv(r.1 + r.3, 2) as i32)
}

/// Whether edge `k`'s source candidates are a decision's ordered sides.
pub open spec fn src_ordered(p: PlanIn, k: int) -> bool {
    let e = p.es[k];
    let sr = p.rs[e.from as int];
    let sides = spec_decision_sides(sr, p.rs[e.to as int], label_lc(opt_view(e.label)));
    p.shapes[e.from as int] == Shape::Decision && ext_sides(sr, p.shapes[e.from as int], sides, sides.len() as int).len() > 0
}

/// The source port edge `k` takes against `c`: a free one, nearest the
/// target's centre unless the candidates are a decision's ordered sides.
pub open spec fn src_port(p: PlanIn, c: Claims, k: int) -> Pt {
    let f = p.es[k].from as int;
    let pref = if src_ordered(p, k) { None } else { Some(mid(p.rs[p.es[k].to as int])) };
    spec_choose_port(spec_src_cands(p, k), c.outs[f], c.ins[f], pref)
}

/// The point edge `k`'s target port should be near: level with the
/// source's centre on the preferred side, else the source's centre.
pub open spec fn dst_pref_of(p: PlanIn, k: int) -> Pt {
    let dr = p.rs[p.es[k].to as int];
    let sc = mid(p.rs[p.es[k].from as int]);
    match spec_prefer(p, k) {
        Some(Side::Left) => (dr.0, sc.1),
        Some(Side::Right) => (dr.2, sc.1),
        _ => sc,
    }
}

/// The target port edge `k` takes against `c`: the top centre when it is
/// a free candidate with a clear approach, else a free one nearest
/// `dst_pref_of`.
pub open spec fn dst_port(p: PlanIn, c: Claims, k: int) -> Pt {
    let t = p.es[k].to as int;
    let dr = p.rs[t];
    let top = (tdiv(dr.0 + dr.2, 2) as i32, dr.1);
    let pref = dst_pref_of(p, k);
    let cands = spec_dst_cands(p, k);
    if cands.contains(top) && spec_top_clear(p.rs, t as usize, dr) && !c.ins[t].contains(top) && !c.outs[t].contains(top) {
        top
    } else {
        spec_choose_port(cands, c.ins[t], c.outs[t], Some(pref))
    }
}

/// `c` after edge `k` claims its source port.
pub open spec fn with_src(p: PlanIn, c: Claims, k: int) -> Claims {
    let f = p.es[k].from as int;
    Claims { outs: c.outs.update(f, set_insert(c.outs[f], src_port(p, c, k))), ..c }
}

/// `c` after edge `k` claims its target port.
pub open spec fn with_dst(p: PlanIn, c: Claims, k: int) -> Claims {
    let t = p.es[k].to as int;
    Claims { ins: c.ins.update(t, set_insert(c.ins[t], dst_port(p, c, k))), ..c }
}

/// `c` after edge `k` claims its lane and its source port.
pub open spec fn after_src(p: PlanIn, c: Claims, k: int) -> Claims {
    with_src(p, claim_lane(p, c, k), k)
}

/// `c` after edge `k` is planned.
pub open spec fn claim_step(p: PlanIn, c: Claims, k: int) -> Claims {
    with_dst(p, after_src(p, c, k), k)
}

/// The claims after the first `i` edges of `order` are planned.
pub open spec fn claims_at(p: PlanIn, order: Seq<usize>, i: int) -> Claims
    decreases i,
{
    if i <= 0 { no_claims(p.rs.len() as int) } else { claim_step(p, claims_at(p, order, i - 1), order[i - 1] as int) }
}

/// The ports and lane of edge `k`'s plan, made against `c`.
pub open spec fn ports_from(p: PlanIn, c: Claims, k: int, m: EdgePlan) -> bool {
    &&& m.side_lane_x == lane_of(p, c, k)
    &&& m.sx_override == src_port(p, claim_lane(p, c, k), k)
    &&& m.tx_override == dst_port(p, after_src(p, c, k), k)
}

/// Edge `k`'s plan was made at its last visit among the first `i` of
/// `order`, against what the edges visited before had claimed.
pub open spec fn plan_ports(p: PlanIn, order: Seq<usize>, i: int, k: int, m: EdgePlan) -> bool {
    exists|t: int| 0 <= t < i && order[t] == k && (forall|t2: int| t < t2 < i ==> order[t2] != k)
        && #[trigger] ports_from(p, claims_at(p, order, t), k, m)
}

pub open spec fn all_small(s: Seq<Pt>) -> bool {
    forall|i: int| 0 <= i < s.len() ==> small_pt(#[trigger] s[i])
}

/// The sizes for which planning stays within the router's working box.
pub open spec fn plan_fits(p: PlanIn) -> bool {
    let n = p.rs.len() as int;
    &&& small(p.w - 40)
    &&& small(min_x1(p.rs, n) - 220 - 130 * n) && small(max_x2(p.rs, n, p.w) + 220 + 130 * n)
    &&& forall|k: int| 0 <= k < p.es.len() ==> #[trigger] edge_fits(p, k)
}

/// Edge `k`'s numbers stay within the router's working box: at most 1024
/// edges leave its source, which keeps the offset `(2 idx - count + 1) 30`
/// within the router's ±2^17 offset range, and its split row and ports
/// stay within `small`.
pub open spec fn edge_fits(p: PlanIn, k: int) -> bool {
    &&& spec_out_pos(p.es, k).1 <= 0x400
    &&& small(p.rs[p.es[k].from as int].3 + 28 + p.offs[p.es[k].from as int])
    &&& all_small(spec_src_cands(p, k)) && all_small(spec_dst_cands(p, k))
}

pub open spec fn plan_in(
    names: Seq<String>, shapes: Seq<Shape>, texts: Seq<String>, levels: Seq<i32>, rects: Seq<Rect>,
    edges: Seq<RenderEdge>, w: i32,
) -> PlanIn {
    PlanIn {
        shapes,
        ends: Seq::new(rects.len(), |i: int| spec_is_end(shapes, texts_view(texts), i)),
        vs: levels,
        rs: rects,
        es: edges,
        offs: Seq::new(rects.len(), |i: int| spec_split_offset(names_view(names), rects, edges, i) as i32),
        w: w as int,
    }
}

pub open spec fn plan_inputs_ok(
    names: Seq<String>, shapes: Seq<Shape>, texts: Seq<String>, levels: Seq<i32>, rects: Seq<Rect>,
    edges: Seq<RenderEdge>, order: Seq<usize>, w: i32,
) -> bool {
    let n = rects.len() as int;
    &&& names.len() == n && shapes.len() == n && texts.len() == n && levels.len() == n
    &&& n <= 0x10_0000 && edges.len() <= 0x1000_0000
    &&& edges_in(edges, n)
    &&& crate::layout::small_rects(rects)
    &&& small(w as int)
    &&& order.len() == edges.len()
    &&& forall|i: int| 0 <= i < order.len() ==> #[trigger] order[i] < edges.len()
    &&& forall|q: int| 0 <= q < edges.len() ==> #[trigger] hits(order, q)
}

#[verifier::spinoff_prover]
fn copy_plan(m: &EdgePlan) -> (r: EdgePlan)
    ensures
        r.out_idx == m.out_idx, r.out_count == m.out_count, r.src_split_y == m.src_split_y,
        r.force_center == m.force_center, r.prefer_side == m.prefer_side, r.sx_override == m.sx_override,
        r.tx_override == m.tx_override, r.src_side == m.src_side, r.dst_side == m.dst_side,
        r.src_port_variants@ == m.src_port_variants@, r.dst_port_variants@ == m.dst_port_variants@,
        r.side_lane_x == m.side_lane_x, r.bounds == m.bounds,
{
    EdgePlan {
        out_idx: m.out_idx,
        out_count: m.out_count,
        src_split_y: m.src_split_y,
        force_center: m.force_center,
        prefer_side: m.prefer_side,
        sx_override: m.sx_override,
        tx_override: m.tx_override,
        src_side: m.src_side,
        dst_side: m.dst_side,
        src_port_variants: copy_path(&m.src_port_variants),
        dst_port_variants: copy_path(&m.dst_port_variants),
        side_lane_x: m.side_lane_x,
        bounds: m.bounds,
    }
}

#[verifier::spinoff_prover]
fn pts_small(v: &Vec<Pt>) -> (r: bool)
    ensures r == all_small(v@),
{
    let mut i: usize = 0;
    while i < v.len()
        invariant i <= v@.len(), forall|q: int| 0 <= q < i ==> small_pt(#[trigger] v@[q]),
        decreases v@.len() - i,
    {
        let p = v[i];
        if !(-0x4_0000 <= p.0 && p.0 <= 0x4_0000 && -0x4_0000 <= p.1 && p.1 <= 0x4_0000) {
            return false;
        }
        i += 1;
    }
    true
}

proof fn lemma_small_rects_ok(rs: Seq<Rect>)
    requires crate::layout::small_rects(rs),
    ensures rects_ok(rs),
{
    assert forall|i: int| 0 <= i < rs.len() implies rect_ok(#[trigger] rs[i]) by {
        assert(crate::layout::small_rect(rs[i]));
    }
}

proof fn lemma_small_path_ok(s: Seq<Pt>)
    requires all_small(s),
    ensures path_ok(s),
{
    assert forall|i: int| 0 <= i < s.len() implies pt_ok(#[trigger] s[i]) by {
        assert(small_pt(s[i]));
    }
}

/// A plan the router accepts as it is.
pub open spec fn plan_routable(m: EdgePlan) -> bool {
    &&& route_inputs_ok(m.out_idx, m.out_count, m.src_split_y, m.sx_override, m.tx_override, m.side_lane_x, m.bounds)
    &&& all_small(m.src_port_variants@) && all_small(m.dst_port_variants@)
    &&& m.src_port_variants@.len() > 0 && m.dst_port_variants@.len() > 0
}

proof fn lemma_dedup_small(s: Seq<Pt>)
    requires all_small(s),
    ensures all_small(spec_dedup(s)), s.len() > 0 ==> spec_dedup(s).len() > 0,
    decreases s.len(),
{
    if s.len() > 0 {
        assert(all_small(s.drop_last())) by {
            assert forall|i: int| 0 <= i < s.drop_last().len() implies small_pt(#[trigger] s.drop_last()[i]) by {
                assert(small_pt(s[i]));
            }
        }
        lemma_dedup_small(s.drop_last());
        assert(small_pt(s[s.len() - 1]));
        let prev = spec_dedup(s.drop_last());
        if prev.contains(s.last()) {
            assert(prev.len() > 0);
        }
    }
}

proof fn lemma_from_count_mono(es: Seq<RenderEdge>, s: usize, a: int, b: int)
    requires 0 <= a <= b,
    ensures from_count(es, s, a) <= from_count(es, s, b),
    decreases b,
{
    if b > a {
        lemma_from_count_mono(es, s, a, b - 1);
    }
}

proof fn lemma_fits_at(p: PlanIn, k: int)
    requires plan_fits(p), 0 <= k < p.es.len(),
    ensures
        spec_out_pos(p.es, k).1 <= 0x400,
        small(p.rs[p.es[k].from as int].3 + 28 + p.offs[p.es[k].from as int]),
        all_small(spec_src_cands(p, k)), all_small(spec_dst_cands(p, k)),
{
    assert(edge_fits(p, k));
}

pub open spec fn hits_upto(order: Seq<usize>, i: int, q: int) -> bool {
    exists|j: int| 0 <= j < i && order[j] == q
}

proof fn lemma_hits_next(order: Seq<usize>, i: int, q: int)
    requires 0 <= i < order.len(),
    ensures hits_upto(order, i + 1, q) <==> (hits_upto(order, i, q) || order[i] == q),
{
    if hits_upto(order, i + 1, q) && order[i] != q {
        let j = choose|j: int| 0 <= j < i + 1 && order[j] == q;
        assert(j < i);
    }
    if order[i] == q {
        assert(0 <= i < i + 1 && order[i] == q);
    }
    if hits_upto(order, i, q) {
        let j = choose|j: int| 0 <= j < i && order[j] == q;
        assert(0 <= j < i + 1 && order[j] == q);
    }
}

/// The executable claim tables hold what `c` says.
pub open spec fn claims_match(
    c: Claims, ui: Seq<Vec<Pt>>, uo: Seq<Vec<Pt>>, l: Seq<Option<i32>>, r: Seq<Option<i32>>, lc: int, rc: int,
) -> bool {
    ports_match(c, ui, uo) && lanes_match(c, l, r, lc, rc)
}

pub open spec fn ports_match(c: Claims, ui: Seq<Vec<Pt>>, uo: Seq<Vec<Pt>>) -> bool {
    &&& c.ins.len() == ui.len() && c.outs.len() == uo.len()
    &&& forall|q: int| 0 <= q < ui.len() ==> #[trigger] ui[q]@ == c.ins[q]
    &&& forall|q: int| 0 <= q < uo.len() ==> #[trigger] uo[q]@ == c.outs[q]
}

pub open spec fn lanes_match(c: Claims, l: Seq<Option<i32>>, r: Seq<Option<i32>>, lc: int, rc: int) -> bool {
    c.left == l && c.right == r && c.lc == lc && c.rc == rc
}

proof fn lemma_plan_ports_next(p: PlanIn, order: Seq<usize>, i: int, k: int, m: EdgePlan)
    requires 0 <= i < order.len(), order[i] != k, plan_ports(p, order, i, k, m),
    ensures plan_ports(p, order, i + 1, k, m),
{
    let t = choose|t: int| 0 <= t < i && order[t] == k && (forall|t2: int| t < t2 < i ==> order[t2] != k)
        && #[trigger] ports_from(p, claims_at(p, order, t), k, m);
    assert forall|t2: int| t < t2 < i + 1 implies order[t2] != k by {
        if t2 < i {} else { assert(t2 == i); }
    }
}

proof fn lemma_plan_ports_copy(p: PlanIn, order: Seq<usize>, i: int, k: int, m1: EdgePlan, m2: EdgePlan)
    requires
        plan_ports(p, order, i, k, m1),
        m1.side_lane_x == m2.side_lane_x, m1.sx_override == m2.sx_override, m1.tx_override == m2.tx_override,
    ensures plan_ports(p, order, i, k, m2),
{
    let t = choose|t: int| 0 <= t < i && order[t] == k && (forall|t2: int| t < t2 < i ==> order[t2] != k)
        && #[trigger] ports_from(p, claims_at(p, order, t), k, m1);
    assert(ports_from(p, claims_at(p, order, t), k, m2));
}

/// The static facts edge planning works from.
pub open spec fn plan_env(
    pin: PlanIn, es: Seq<RenderEdge>, rs: Seq<Rect>, shapes: Seq<Shape>, levels: Seq<i32>, ends: Seq<bool>,
    offs: Seq<i32>, pos: Seq<(i32, i32)>, center: i32, min_rx: i32, max_rx: i32, w: i32, next_lit: Seq<char>,
) -> bool {
    let n = rs.len() as int;
    &&& pin.es == es && pin.rs == rs && pin.shapes == shapes && pin.vs == levels && pin.w == w as int
    &&& shapes.len() == n && levels.len() == n && n <= 0x10_0000 && es.len() <= 0x1000_0000
    &&& rects_ok(rs) && crate::layout::small_rects(rs) && edges_in(es, n)
    &&& ends == pin.ends && offs == pin.offs && ends.len() == n && offs.len() == n
    &&& pos.len() == es.len()
    &&& forall|q: int| 0 <= q < es.len() ==> (#[trigger] pos[q]).0 == spec_out_pos(es, q).0 && pos[q].1 == spec_out_pos(es, q).1
    &&& min_rx == min_x1(rs, n) && max_rx == max_x2(rs, n, w as int)
    &&& small(min_rx as int) && small(max_rx as int) && center == center_x(pin)
    &&& small(w as int) && small((w as int) - 40)
    &&& small(min_rx - 220 - 130 * n) && small(max_rx + 220 + 130 * n)
    &&& next_lit == "next"@
}

/// The lane tables are consistent: a source has a lane on a side exactly
/// when it is marked there, the counts are the marks, and every lane given
/// is one of the first `n` on its side.
pub open spec fn lanes_ok(
    pin: PlanIn, l: Seq<Option<i32>>, r: Seq<Option<i32>>, lu: Seq<bool>, ru: Seq<bool>, lc: int, rc: int,
) -> bool {
    let n = pin.rs.len() as int;
    &&& l.len() == n && r.len() == n && lu.len() == n && ru.len() == n
    &&& forall|q: int| 0 <= q < n ==> (#[trigger] lu[q] <==> l[q] is Some)
    &&& forall|q: int| 0 <= q < n ==> (#[trigger] ru[q] <==> r[q] is Some)
    &&& lc == count_true(lu, n) && rc == count_true(ru, n)
    &&& forall|q: int| 0 <= q < n && #[trigger] l[q] is Some ==>
            exists|j: int| 0 <= j < n && l[q] == Some(#[trigger] left_lane(pin, j))
    &&& forall|q: int| 0 <= q < n && #[trigger] r[q] is Some ==>
            exists|j: int| 0 <= j < n && r[q] == Some(#[trigger] right_lane(pin, j))
}

/// Edge `idx`'s source takes its outer lane (`claim_lane`); returns the
/// edge's lane (`lane_of`).
#[verifier::spinoff_prover]
fn take_lane(
    Ghost(pin): Ghost<PlanIn>, Ghost(c): Ghost<Claims>, idx: usize, base: Option<Side>, from: usize,
    min_rx: i32, max_rx: i32,
    left: &mut Vec<Option<i32>>, right: &mut Vec<Option<i32>>,
    left_used: &mut Vec<bool>, right_used: &mut Vec<bool>,
    left_count: &mut usize, right_count: &mut usize,
) -> (x: Option<i32>)
    requires
        0 <= idx < pin.es.len(), from == pin.es[idx as int].from, from < pin.rs.len(), pin.rs.len() <= 0x10_0000,
        base == base_prefer(pin, idx as int),
        min_rx == min_x1(pin.rs, pin.rs.len() as int), max_rx == max_x2(pin.rs, pin.rs.len() as int, pin.w),
        small(min_rx as int), small(max_rx as int),
        small(min_rx - 220 - 130 * pin.rs.len()), small(max_rx + 220 + 130 * pin.rs.len()),
        lanes_ok(pin, old(left)@, old(right)@, old(left_used)@, old(right_used)@, *old(left_count) as int, *old(right_count) as int),
        lanes_match(c, old(left)@, old(right)@, *old(left_count) as int, *old(right_count) as int),
    ensures
        x == lane_of(pin, c, idx as int),
        x is Some ==> small(x->0 as int),
        lanes_ok(pin, final(left)@, final(right)@, final(left_used)@, final(right_used)@, *final(left_count) as int, *final(right_count) as int),
        lanes_match(claim_lane(pin, c, idx as int), final(left)@, final(right)@, *final(left_count) as int, *final(right_count) as int),
{
    let ghost n = pin.rs.len() as int;
    let mut side_lane_x: Option<i32> = None;
    match base {
        Some(Side::Left) => {
            if !left_used[from] {
                proof {
                    lemma_count_set(left_used@, from as int, n);
                    lemma_count_le(left_used@.update(from as int, true), n);
                }
                let x = ((min_rx as i64) - 220 - 130 * (*left_count as i64)) as i32;
                assert(x == left_lane(pin, *left_count as int));
                left.set(from, Some(x));
                left_used.set(from, true);
                *left_count = *left_count + 1;
            }
            side_lane_x = left[from];
        },
        Some(Side::Right) => {
            if !right_used[from] {
                proof {
                    lemma_count_set(right_used@, from as int, n);
                    lemma_count_le(right_used@.update(from as int, true), n);
                }
                let x = ((max_rx as i64) + 220 + 130 * (*right_count as i64)) as i32;
                assert(x == right_lane(pin, *right_count as int));
                right.set(from, Some(x));
                right_used.set(from, true);
                *right_count = *right_count + 1;
            }
            side_lane_x = right[from];
        },
        _ => {},
    }
    proof {
        let c1 = claim_lane(pin, c, idx as int);
        assert(c1.left =~= left@);
        assert(c1.right =~= right@);
        if side_lane_x is Some {
            if base == Some(Side::Left) {
                let j = choose|j: int| 0 <= j < n && left@[from as int] == Some(#[trigger] left_lane(pin, j));
                assert(small(left_lane(pin, j) as int));
            } else {
                let j = choose|j: int| 0 <= j < n && right@[from as int] == Some(#[trigger] right_lane(pin, j));
                assert(small(right_lane(pin, j) as int));
            }
        }
    }
    side_lane_x
}

/// Edge `idx` claims its source port, then its target port, against `c`.
#[verifier::spinoff_prover]
fn take_ports(
    Ghost(pin): Ghost<PlanIn>, Ghost(c): Ghost<Claims>, idx: usize, rects: &[Rect], from: usize, to: usize,
    src_cands: &Vec<Pt>, dst_cands: &Vec<Pt>, src_prefer: Option<Pt>, dst_pref: Pt,
    used_in: &mut Vec<Vec<Pt>>, used_out: &mut Vec<Vec<Pt>>,
) -> (r: (Pt, Pt))
    requires
        0 <= idx < pin.es.len(), from == pin.es[idx as int].from, to == pin.es[idx as int].to,
        from < rects@.len(), to < rects@.len(), pin.rs == rects@, rects_ok(rects@),
        src_cands@ == spec_src_cands(pin, idx as int), dst_cands@ == spec_dst_cands(pin, idx as int),
        src_cands@.len() > 0, dst_cands@.len() > 0, path_ok(src_cands@), path_ok(dst_cands@),
        src_prefer == (if src_ordered(pin, idx as int) { None } else { Some(mid(pin.rs[to as int])) }),
        src_prefer is Some ==> pt_ok(src_prefer->0),
        dst_pref == dst_pref_of(pin, idx as int), pt_ok(dst_pref),
        old(used_in)@.len() == rects@.len(), old(used_out)@.len() == rects@.len(),
        ports_match(c, old(used_in)@, old(used_out)@),
    ensures
        r.0 == src_port(pin, c, idx as int),
        r.1 == dst_port(pin, with_src(pin, c, idx as int), idx as int),
        src_cands@.contains(r.0), dst_cands@.contains(r.1),
        final(used_in)@.len() == rects@.len(), final(used_out)@.len() == rects@.len(),
        ports_match(with_dst(pin, with_src(pin, c, idx as int), idx as int), final(used_in)@, final(used_out)@),
{
    let ghost uo0 = used_out@;
    let src_pt = choose_port_role(used_in, used_out, from, src_cands, PortRole::Out, src_prefer);
    let ghost c2 = with_src(pin, c, idx as int);
    proof {
        assert forall|q: int| 0 <= q < used_out@.len() implies #[trigger] used_out@[q]@ == c2.outs[q] by {
            if q != from as int { assert(used_out@[q] == uo0[q]); }
        }
        assert(ports_match(c2, used_in@, used_out@));
    }
    let ghost ui1 = used_in@;
    let dst_pt = choose_input_port_prioritize_top(used_in, used_out, to, rects, rects[to], dst_cands, Some(dst_pref));
    proof {
        let c3 = with_dst(pin, c2, idx as int);
        assert forall|q: int| 0 <= q < used_in@.len() implies #[trigger] used_in@[q]@ == c3.ins[q] by {
            if q != to as int { assert(used_in@[q] == ui1[q]); }
        }
        assert(ports_match(c3, used_in@, used_out@));
    }
    (src_pt, dst_pt)
}

/// Plans edge `idx` against the claims so far (`c`), and records what it
/// claims. `None` only when the sizes leave the router's working box.
#[verifier::spinoff_prover]
#[verifier::rlimit(80)]
fn plan_one(
    Ghost(pin): Ghost<PlanIn>, Ghost(c): Ghost<Claims>, idx: usize,
    edges: &[RenderEdge], rects: &[Rect], shapes: &[Shape], levels: &[i32],
    ends: &Vec<bool>, offs: &Vec<i32>, pos: &Vec<(i32, i32)>,
    center: i32, min_rx: i32, max_rx: i32, w: i32, next_lit: &Vec<char>,
    used_in: &mut Vec<Vec<Pt>>, used_out: &mut Vec<Vec<Pt>>,
    left: &mut Vec<Option<i32>>, right: &mut Vec<Option<i32>>,
    left_used: &mut Vec<bool>, right_used: &mut Vec<bool>,
    left_count: &mut usize, right_count: &mut usize,
) -> (r: Option<EdgePlan>)
    requires
        plan_env(pin, edges@, rects@, shapes@, levels@, ends@, offs@, pos@, center, min_rx, max_rx, w, next_lit@),
        idx < edges@.len(),
        lanes_ok(pin, old(left)@, old(right)@, old(left_used)@, old(right_used)@,
            *old(left_count) as int, *old(right_count) as int),
        old(used_in)@.len() == rects@.len(), old(used_out)@.len() == rects@.len(),
        claims_match(c, old(used_in)@, old(used_out)@, old(left)@, old(right)@, *old(left_count) as int, *old(right_count) as int),
    ensures
        r is None ==> !plan_fits(pin),
        r matches Some(plan) ==> {
            &&& plan_ok(pin, idx as int, plan) && plan_routable(plan)
            &&& edge_fits(pin, idx as int)
            &&& ports_from(pin, c, idx as int, plan)
            &&& lanes_ok(pin, final(left)@, final(right)@, final(left_used)@,
                    final(right_used)@, *final(left_count) as int, *final(right_count) as int)
            &&& final(used_in)@.len() == rects@.len() && final(used_out)@.len() == rects@.len()
            &&& claims_match(claim_step(pin, c, idx as int), final(used_in)@, final(used_out)@, final(left)@, final(right)@,
                    *final(left_count) as int, *final(right_count) as int)
        },
{
    let n = rects.len();
    let m = edges.len();
    let e = &edges[idx];
    let from = e.from;
    let to = e.to;
    let src_r = rects[from];
    let dst_r = rects[to];
    proof {
        assert(crate::layout::small_rect(rects@[from as int]));
        assert(crate::layout::small_rect(rects@[to as int]));
    }
    let force_center = ends[to];
    let lbl = label_lc_exec(&e.label);
    let is_back = match e.back_edge { Some(b) => b, None => levels[to] <= levels[from] };
    let split_y = (src_r.3 as i64) + 28 + (offs[from] as i64);
    if !(-0x4_0000 <= split_y && split_y <= 0x4_0000) {
        proof {
            if plan_fits(pin) {
                lemma_fits_at(pin, idx as int);
            }
        }
        return None;
    }
    let src_cx = (src_r.0 + src_r.2) / 2;
    let dst_cx = (dst_r.0 + dst_r.2) / 2;
    let is_next = crate::text::eq_vec(&lbl, &next_lit);
    let base: Option<Side> = if is_back || is_next || force_center {
        if src_cx <= center { Some(Side::Left) } else { Some(Side::Right) }
    } else {
        None
    };
    assert(base == base_prefer(pin, idx as int));
    let side_lane_x = take_lane(Ghost(pin), Ghost(c), idx, base, from, min_rx, max_rx,
        left, right, left_used, right_used, left_count, right_count);
    let src_shape = shapes[from];
    let is_dec = match src_shape { Shape::Decision => true, _ => false };
    let prefer: Option<Side> = if is_dec {
        let dx = dst_cx - src_cx;
        if dx < -16 { Some(Side::Left) } else if dx > 16 { Some(Side::Right) } else { None }
    } else {
        base
    };
    assert(prefer == spec_prefer(pin, idx as int));
    let ghost c1 = claim_lane(pin, c, idx as int);
    assert(ports_match(c1, used_in@, used_out@));
    let mut src_cands: Vec<Pt> = Vec::new();
    let mut use_ordered = false;
    if is_dec {
        let lbl_s = crate::text::string_of(&lbl);
        let sides = decision_output_side_order(src_r, dst_r, lbl_s.as_str());
        let mut ordered: Vec<Pt> = Vec::new();
        let mut q: usize = 0;
        while q < sides.len()
            invariant
                q <= sides@.len(), rect_ok(src_r),
                ordered@ == ext_sides(src_r, src_shape, sides@, q as int),
            decreases sides@.len() - q,
        {
            let sp = side_port_candidates(src_r, src_shape, sides[q]);
            extend_unique(&mut ordered, sp);
            q += 1;
        }
        if ordered.len() > 0 {
            src_cands = ordered;
            use_ordered = true;
        }
    }
    if !use_ordered {
        src_cands = output_port_candidates(src_r, src_shape, prefer);
    }
    assert(src_cands@ == spec_src_cands(pin, idx as int));
    let approach = if src_cx < dst_cx { Side::Left } else { Side::Right };
    let dst_cands = input_port_candidates(dst_r, shapes[to], Some(approach));
    assert(dst_cands@ == spec_dst_cands(pin, idx as int));
    if !pts_small(&src_cands) || !pts_small(&dst_cands) || pos[idx].1 > 0x400 {
        proof {
            assert(spec_out_pos(pin.es, idx as int).1 == pos@[idx as int].1);
            if plan_fits(pin) {
                lemma_fits_at(pin, idx as int);
            }
        }
        return None;
    }
    proof {
        lemma_small_path_ok(src_cands@);
        lemma_small_path_ok(dst_cands@);
        assert(src_cands@.len() > 0) by {
            if !use_ordered {
                assert(spec_side_ports(src_r, src_shape, Side::Bottom).len() > 0);
            }
        }
        assert(dst_cands@.len() > 0) by {
            assert(spec_side_ports(dst_r, shapes@[to as int], Side::Top).len() > 0);
        }
    }
    let src_prefer_pt: Option<Pt> = if use_ordered { None } else { Some(((dst_r.0 + dst_r.2) / 2, (dst_r.1 + dst_r.3) / 2)) };
    assert(use_ordered == src_ordered(pin, idx as int));
    assert(src_prefer_pt == (if src_ordered(pin, idx as int) { None } else { Some(mid(pin.rs[to as int])) }));
    let src_center = ((src_r.0 + src_r.2) / 2, (src_r.1 + src_r.3) / 2);
    let dst_pref = match prefer {
        Some(Side::Left) => (dst_r.0, src_center.1),
        Some(Side::Right) => (dst_r.2, src_center.1),
        _ => src_center,
    };
    assert(dst_pref == dst_pref_of(pin, idx as int));
    let (src_pt, dst_pt) = take_ports(Ghost(pin), Ghost(c1), idx, rects, from, to, &src_cands, &dst_cands,
        src_prefer_pt, dst_pref, used_in, used_out);
    proof {
        assert(claim_step(pin, c, idx as int) == with_dst(pin, with_src(pin, c1, idx as int), idx as int));
        assert(claims_match(claim_step(pin, c, idx as int), used_in@, used_out@, left@, right@, *left_count as int, *right_count as int));
    }
    let src_side = port_side_from_point(src_r, src_pt);
    let dst_side = port_side_from_point(dst_r, dst_pt);
    let src_var = unique_ports(&src_cands);
    let dst_var = unique_ports(&dst_cands);
    let plan = EdgePlan {
        out_idx: pos[idx].0,
        out_count: pos[idx].1,
        src_split_y: split_y as i32,
        force_center,
        prefer_side: prefer,
        sx_override: src_pt,
        tx_override: dst_pt,
        src_side,
        dst_side,
        src_port_variants: src_var,
        dst_port_variants: dst_var,
        side_lane_x,
        bounds: (40, w - 40),
    };
    proof {
        assert(plan_ok(pin, idx as int, plan));
        lemma_dedup_small(src_cands@);
        lemma_dedup_small(dst_cands@);
        lemma_last_same_bounds(edges@, idx as int, m as int);
        lemma_from_count_mono(edges@, from, last_same(edges@, idx as int, m as int), m as int);
        lemma_from_count_bound(edges@, from, last_same(edges@, idx as int, m as int));
        assert(src_cands@.contains(src_pt));
        let a = choose|a: int| 0 <= a < src_cands@.len() && src_cands@[a] == src_pt;
        assert(small_pt(src_cands@[a]));
        assert(dst_cands@.contains(dst_pt));
        let b = choose|b: int| 0 <= b < dst_cands@.len() && dst_cands@[b] == dst_pt;
        assert(small_pt(dst_cands@[b]));
        assert(plan_routable(plan));
        assert(ports_from(pin, c, idx as int, plan));
        assert(all_small(src_cands@) && all_small(dst_cands@));
        assert(edge_fits(pin, idx as int));
    }
    Some(plan)
}

/// Plans every edge for routing (`plan_ok`). Edges are visited in `order`
/// so that earlier ones claim free ports first and give their sources the
/// inner outer lanes (`plan_ports`). `None` exactly when the sizes leave
/// the router's working box (`plan_fits` fails).
#[verifier::spinoff_prover]
#[verifier::rlimit(80)]
pub fn plan_edges(
    names: &[String], shapes: &[Shape], texts: &[String], levels: &[i32], rects: &[Rect],
    edges: &[RenderEdge], order: &[usize], w: i32,
) -> (r: Option<Vec<EdgePlan>>)
    requires
        plan_inputs_ok(names@, shapes@, texts@, levels@, rects@, edges@, order@, w),
    ensures
        r is None <==> !plan_fits(plan_in(names@, shapes@, texts@, levels@, rects@, edges@, w)),
        r matches Some(v) ==> v@.len() == edges@.len() && forall|k: int| 0 <= k < v@.len() ==>
            plan_ok(plan_in(names@, shapes@, texts@, levels@, rects@, edges@, w), k, #[trigger] v@[k])
            && plan_routable(v@[k])
            && plan_ports(plan_in(names@, shapes@, texts@, levels@, rects@, edges@, w), order@, order@.len() as int, k, v@[k]),
{
    let ghost pin = plan_in(names@, shapes@, texts@, levels@, rects@, edges@, w);
    let n = rects.len();
    let m = edges.len();
    proof { lemma_small_rects_ok(rects@); }
    let offs = split_offsets(names, rects, edges);
    let mut ends: Vec<bool> = Vec::new();
    let end_lit = chars_of("end");
    let mut i: usize = 0;
    while i < n
        invariant
            i <= n, n == rects@.len(), shapes@.len() == n, texts@.len() == n, end_lit@ == "end"@,
            ends@.len() == i,
            forall|q: int| 0 <= q < i ==> #[trigger] ends@[q] == spec_is_end(shapes@, texts_view(texts@), q),
        decreases n - i,
    {
        let t = lower_vec(&trim_vec(&chars_of(texts[i].as_str())));
        let is_term = match shapes[i] { Shape::Terminator => true, _ => false };
        ends.push(is_term && crate::text::eq_vec(&t, &end_lit));
        i += 1;
    }
    assert(ends@ =~= pin.ends);
    assert(offs@.len() == pin.offs.len());
    assert forall|q: int| 0 <= q < n implies #[trigger] offs@[q] == pin.offs[q] by {}
    assert(offs@ =~= pin.offs);
    let pos = out_positions(edges);
    // extent of the nodes
    let mut min_rx: i32 = 0;
    let mut max_rx: i32 = w;
    let mut i: usize = 0;
    while i < n
        invariant
            i <= n, n == rects@.len(), crate::layout::small_rects(rects@),
            min_rx == min_x1(rects@, i as int), max_rx == max_x2(rects@, i as int, w as int),
            i > 0 ==> small(min_rx as int) && small(max_rx as int),
        decreases n - i,
    {
        proof { assert(crate::layout::small_rect(rects@[i as int])); }
        let r = rects[i];
        if i == 0 {
            min_rx = r.0;
            max_rx = r.2;
        } else {
            if r.0 < min_rx { min_rx = r.0; }
            if r.2 > max_rx { max_rx = r.2; }
        }
        i += 1;
    }
    if !(-0x4_0000 <= (w as i64) - 40 && (w as i64) - 40 <= 0x4_0000) {
        return None;
    }
    let lo_lane = (min_rx as i64) - 220 - 130 * (n as i64);
    let hi_lane = (max_rx as i64) + 220 + 130 * (n as i64);
    if !(-0x4_0000 <= lo_lane && lo_lane <= 0x4_0000 && -0x4_0000 <= hi_lane && hi_lane <= 0x4_0000) {
        return None;
    }
    proof {
        if n == 0 {
            assert(small(min_rx as int)) by { assert(min_rx == 0); }
            assert(small(max_rx as int)) by { assert(max_rx == w); }
        }
    }
    let center = (min_rx + max_rx) / 2;
    assert(center == center_x(pin));
    let mut used_in: Vec<Vec<Pt>> = Vec::new();
    let mut used_out: Vec<Vec<Pt>> = Vec::new();
    let mut left: Vec<Option<i32>> = Vec::new();
    let mut right: Vec<Option<i32>> = Vec::new();
    let mut left_used: Vec<bool> = Vec::new();
    let mut right_used: Vec<bool> = Vec::new();
    let mut i: usize = 0;
    while i < n
        invariant
            i <= n, used_in@.len() == i, used_out@.len() == i, left@.len() == i, right@.len() == i,
            left_used@.len() == i, right_used@.len() == i,
            forall|q: int| 0 <= q < i ==> #[trigger] left@[q] is None,
            forall|q: int| 0 <= q < i ==> #[trigger] right@[q] is None,
            forall|q: int| 0 <= q < i ==> !#[trigger] left_used@[q],
            forall|q: int| 0 <= q < i ==> !#[trigger] right_used@[q],
            forall|q: int| 0 <= q < i ==> (#[trigger] used_in@[q])@ == Seq::<Pt>::empty(),
            forall|q: int| 0 <= q < i ==> (#[trigger] used_out@[q])@ == Seq::<Pt>::empty(),
        decreases n - i,
    {
        used_in.push(Vec::new());
        used_out.push(Vec::new());
        left.push(None);
        right.push(None);
        left_used.push(false);
        right_used.push(false);
        i += 1;
    }
    proof {
        lemma_count_zero(left_used@, n as int);
        lemma_count_zero(right_used@, n as int);
    }
    let mut left_count: usize = 0;
    let mut right_count: usize = 0;
    proof {
        let c0 = claims_at(pin, order@, 0);
        assert(c0.left =~= left@);
        assert(c0.right =~= right@);
        assert(claims_match(c0, used_in@, used_out@, left@, right@, 0, 0));
    }
    let mut plans: Vec<Option<EdgePlan>> = Vec::new();
    let mut k: usize = 0;
    while k < m
        invariant
            k <= m, m == edges@.len(), plans@.len() == k,
            forall|q: int| 0 <= q < k ==> #[trigger] plans@[q] is None,
        decreases m - k,
    {
        plans.push(None);
        k += 1;
    }
    let next_lit = chars_of("next");
    let mut i: usize = 0;
    while i < m
        invariant
            i <= m, m == edges@.len(), n == rects@.len(),
            plan_inputs_ok(names@, shapes@, texts@, levels@, rects@, edges@, order@, w),
            pin == plan_in(names@, shapes@, texts@, levels@, rects@, edges@, w),
            plan_env(pin, edges@, rects@, shapes@, levels@, ends@, offs@, pos@, center, min_rx, max_rx, w, next_lit@),
            lanes_ok(pin, left@, right@, left_used@, right_used@, left_count as int, right_count as int),
            used_in@.len() == n, used_out@.len() == n,
            plans@.len() == m,
            forall|q: int| 0 <= q < m ==> (#[trigger] plans@[q] is Some <==> hits_upto(order@, i as int, q)),
            forall|q: int| 0 <= q < m && #[trigger] plans@[q] is Some ==> plan_ok(pin, q, plans@[q]->0)
                && plan_routable(plans@[q]->0),
            claims_match(claims_at(pin, order@, i as int), used_in@, used_out@, left@, right@, left_count as int, right_count as int),
            forall|q: int| 0 <= q < m && #[trigger] plans@[q] is Some ==> plan_ports(pin, order@, i as int, q, plans@[q]->0),
            forall|q: int| 0 <= q < m && #[trigger] plans@[q] is Some ==> edge_fits(pin, q),
        decreases m - i,
    {
        let idx = order[i];
        let ghost c = claims_at(pin, order@, i as int);
        let planned = plan_one(Ghost(pin), Ghost(c), idx, edges, rects, shapes, levels, &ends, &offs, &pos,
            center, min_rx, max_rx, w, &next_lit, &mut used_in, &mut used_out, &mut left, &mut right,
            &mut left_used, &mut right_used, &mut left_count, &mut right_count);
        let plan = match planned {
            None => { return None; },
            Some(pl) => pl,
        };
        proof { assert(claims_at(pin, order@, i + 1) == claim_step(pin, c, idx as int)); }
        let ghost old_plans = plans@;
        proof {
            assert(ports_from(pin, c, idx as int, plan));
            assert(plan_ports(pin, order@, i + 1, idx as int, plan));
        }
        plans.set(idx, Some(plan));
        proof {
            assert forall|q: int| 0 <= q < m implies (#[trigger] plans@[q] is Some <==> hits_upto(order@, i + 1, q)) by {
                lemma_hits_next(order@, i as int, q);
            }
            assert forall|q: int| 0 <= q < m && #[trigger] plans@[q] is Some implies plan_ports(pin, order@, i + 1, q, plans@[q]->0) by {
                if q != idx as int {
                    assert(plans@[q] == old_plans[q]);
                    lemma_plan_ports_next(pin, order@, i as int, q, old_plans[q]->0);
                }
            }
        }
        i += 1;
    }
    let mut out: Vec<EdgePlan> = Vec::new();
    let mut q: usize = 0;
    while q < m
        invariant
            q <= m, m == edges@.len(), plans@.len() == m, out@.len() == q,
            plan_inputs_ok(names@, shapes@, texts@, levels@, rects@, edges@, order@, w),
            pin == plan_in(names@, shapes@, texts@, levels@, rects@, edges@, w),
            forall|t: int| 0 <= t < m ==> (#[trigger] plans@[t] is Some <==> hits_upto(order@, m as int, t)),
            forall|t: int| 0 <= t < m && #[trigger] plans@[t] is Some ==> plan_ok(pin, t, plans@[t]->0)
                && plan_routable(plans@[t]->0),
            forall|t: int| 0 <= t < m && #[trigger] plans@[t] is Some ==> plan_ports(pin, order@, m as int, t, plans@[t]->0),
            forall|t: int| 0 <= t < m && #[trigger] plans@[t] is Some ==> edge_fits(pin, t),
            plan_env(pin, edges@, rects@, shapes@, levels@, ends@, offs@, pos@, center, min_rx, max_rx, w, next_lit@),
            forall|t: int| 0 <= t < q ==> plan_ok(pin, t, #[trigger] out@[t]) && plan_routable(out@[t])
                && plan_ports(pin, order@, m as int, t, out@[t]) && edge_fits(pin, t),
        decreases m - q,
    {
        proof {
            assert(hits(order@, q as int));
            let j = choose|j: int| 0 <= j < order@.len() && order@[j] == q;
            assert(hits_upto(order@, m as int, q as int));
        }
        match &plans[q] {
            Some(pl) => {
                let c = copy_plan(pl);
                proof { lemma_plan_ports_copy(pin, order@, m as int, q as int, *pl, c); }
                out.push(c);
            },
            None => {
                proof { assert(false); }
                return None;
            },
        }
        q += 1;
    }
    proof {
        assert forall|k: int| 0 <= k < pin.es.len() implies #[trigger] edge_fits(pin, k) by {
            assert(k < out@.len());
            assert(plan_ok(pin, k, out@[k]));
        }
        assert(plan_fits(pin));
    }
    Some(out)
}

} // verus!
