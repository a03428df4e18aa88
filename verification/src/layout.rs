//! Node placement on the canvas: lanes become columns and levels become
//! rows; nodes sharing a lane and a level are stacked, crowded rows get
//! extra room, and rows are pushed down until overlapping columns keep a
//! minimum vertical gap.
use vstd::prelude::*;
use crate::router::small;
use crate::geometry::{Rect, Shape, spec_node_dims, node_dims, imin, imax, iabs};

verus! {

pub open spec fn strictly_sorted(s: Seq<i32>) -> bool {
    forall|i: int, j: int| 0 <= i < j < s.len() ==> s[i] < s[j]
}

/// `s` holds exactly the values that occur in `vals`.
pub open spec fn same_values(s: Seq<i32>, vals: Seq<i32>) -> bool {
    forall|x: i32| s.contains(x) <==> vals.contains(x)
}

/// The distinct values of `vals` in ascending order.
pub fn distinct_sorted(vals: &[i32]) -> (out: Vec<i32>)
    ensures
        strictly_sorted(out@),
        same_values(out@, vals@),
{
    let mut out: Vec<i32> = Vec::new();
    let mut i: usize = 0;
    while i < vals.len()
        invariant
            i <= vals.len(),
            strictly_sorted(out@),
            forall|x: i32| out@.contains(x) <==> vals@.take(i as int).contains(x),
        decreases vals.len() - i,
    {
        let v = vals[i];
        let mut p: usize = 0;
        while p < out.len() && out[p] < v
            invariant
                p <= out.len(),
                forall|k: int| 0 <= k < p ==> out@[k] < v,
            decreases out.len() - p,
        {
            p += 1;
        }
        let ghost old_out = out@;
        assert(vals@.take(i + 1) =~= vals@.take(i as int).push(v));
        if p < out.len() && out[p] == v {
            assert(old_out.contains(v));
            assert(forall|x: i32| out@.contains(x) <==> (old_out.contains(x) || x == v));
        } else {
            out.insert(p, v);
            proof {
                old_out.insert_ensures(p as int, v);
                assert forall|a: int, b: int| 0 <= a < b < out@.len() implies out@[a] < out@[b] by {
                    if b < p {
                    } else if b == p {
                    } else if a < p {
                        assert(out@[b] == old_out[b - 1]);
                        assert(old_out[p as int] >= v);
                    } else if a == p {
                        assert(out@[b] == old_out[b - 1]);
                        assert(old_out[p as int] >= v && old_out[p as int] != v);
                    } else {
                        assert(out@[b] == old_out[b - 1]);
                        assert(out@[a] == old_out[a - 1]);
                    }
                }
                assert forall|x: i32| out@.contains(x) <==> (old_out.contains(x) || x == v) by {
                    if out@.contains(x) {
                        let k = choose|k: int| 0 <= k < out@.len() && out@[k] == x;
                        if k < p {
                            assert(old_out[k] == x);
                        } else if k > p {
                            assert(old_out[k - 1] == x);
                        }
                    }
                    if old_out.contains(x) {
                        let k = choose|k: int| 0 <= k < old_out.len() && old_out[k] == x;
                        if k < p {
                            assert(out@[k] == x);
                        } else {
                            assert(out@[k + 1] == x);
                        }
                    }
                    if x == v {
                        assert(out@[p as int] == v);
                    }
                }
            }
        }
        proof {
            let s0 = vals@.take(i as int);
            let s1 = vals@.take(i as int + 1);
            assert forall|x: i32| s1.contains(x) <==> (s0.contains(x) || x == v) by {
                if s1.contains(x) {
                    let k = choose|k: int| 0 <= k < s1.len() && s1[k] == x;
                    if k < i {
                        assert(s0[k] == x);
                    }
                }
                if s0.contains(x) {
                    let k = choose|k: int| 0 <= k < s0.len() && s0[k] == x;
                    assert(s1[k] == x);
                }
                if x == v {
                    assert(s1[i as int] == v);
                }
            }
            assert forall|x: i32| out@.contains(x) <==> s1.contains(x) by {
                assert(out@.contains(x) <==> (old_out.contains(x) || x == v));
                assert(old_out.contains(x) <==> s0.contains(x));
                assert(s1.contains(x) <==> (s0.contains(x) || x == v));
            }
        }
        i += 1;
    }
    assert(vals@.take(vals@.len() as int) =~= vals@);
    out
}

/// The position of `x` in the ascending list `sorted`, which holds it.
pub fn index_in(sorted: &[i32], x: i32) -> (k: usize)
    requires
        strictly_sorted(sorted@),
        sorted@.contains(x),
    ensures
        k < sorted@.len(),
        sorted@[k as int] == x,
{
    let mut k: usize = 0;
    while k < sorted.len()
        invariant
            k <= sorted.len(),
            forall|j: int| 0 <= j < k ==> sorted@[j] != x,
            sorted@.contains(x),
        decreases sorted.len() - k,
    {
        if sorted[k] == x {
            return k;
        }
        k += 1;
    }
    proof {
        let j = choose|j: int| 0 <= j < sorted@.len() && sorted@[j] == x;
        assert(false);
    }
    0
}

/// Nodes `i` and `j` sit in the same lane and level.
pub open spec fn same_cell(lanes: Seq<i32>, levels: Seq<i32>, i: int, j: int) -> bool {
    lanes[i] == lanes[j] && levels[i] == levels[j]
}

/// The number of the first `m` nodes that share node `i`'s lane and level.
pub open spec fn cell_count(lanes: Seq<i32>, levels: Seq<i32>, i: int, m: int) -> int
    decreases m,
{
    if m <= 0 {
        0
    } else {
        cell_count(lanes, levels, i, m - 1) + if same_cell(lanes, levels, i, m - 1) { 1int } else { 0int }
    }
}

/// How many nodes beyond the first are stacked in the fullest cell of
/// level `lv`, looking at the first `m` nodes.
pub open spec fn stack_upto(lanes: Seq<i32>, levels: Seq<i32>, lv: i32, m: int) -> int
    decreases m,
{
    if m <= 0 {
        0
    } else {
        let s = stack_upto(lanes, levels, lv, m - 1);
        if levels[m - 1] == lv {
            let c = cell_count(lanes, levels, m - 1, lanes.len() as int) - 1;
            if c > s { c } else { s }
        } else {
            s
        }
    }
}

pub open spec fn stack_of(lanes: Seq<i32>, levels: Seq<i32>, lv: i32) -> int {
    stack_upto(lanes, levels, lv, lanes.len() as int)
}

/// Extra room above the `k`-th level: the crowding bumps of the levels
/// above it, and 260 px for each node stacked in their fullest cells.
pub open spec fn level_extra(level_list: Seq<i32>, bumps: Seq<i32>, lanes: Seq<i32>, levels: Seq<i32>, k: int) -> int
    decreases k,
{
    if k <= 0 {
        0
    } else {
        level_extra(level_list, bumps, lanes, levels, k - 1) + bumps[k - 1]
            + stack_of(lanes, levels, level_list[k - 1]) * 260
    }
}

/// The position of `x` in a list that holds it once.
pub open spec fn pos_of(list: Seq<i32>, x: i32) -> int {
    choose|k: int| 0 <= k < list.len() && list[k] == x
}

/// The centre of node `i`: its lane's column, and its level's row moved
/// down by the level's extra room and by 260 px for each earlier node in
/// its cell.
pub open spec fn spec_center(
    lanes: Seq<i32>, levels: Seq<i32>, lane_list: Seq<i32>, level_list: Seq<i32>, bumps: Seq<i32>, i: int,
) -> (int, int) {
    let lk = pos_of(lane_list, lanes[i]);
    let vk = pos_of(level_list, levels[i]);
    (
        300 + lk * 1300 + 600,
        140 + vk * 280 + level_extra(level_list, bumps, lanes, levels, vk) + 120
            + cell_count(lanes, levels, i, i) * 260,
    )
}

/// The rectangle of node `i`, centred on `spec_center` with its shape's size.
pub open spec fn spec_place_rect(
    lanes: Seq<i32>, levels: Seq<i32>, shapes: Seq<Shape>, lane_list: Seq<i32>, level_list: Seq<i32>,
    bumps: Seq<i32>, i: int,
) -> (int, int, int, int) {
    let (cx, cy) = spec_center(lanes, levels, lane_list, level_list, bumps, i);
    let (w, h) = spec_node_dims(shapes[i]);
    (cx - w / 2, cy - h / 2, cx + w / 2, cy + h / 2)
}

/// Placement keeps every coordinate within the router's working box
/// (`small`, ±2^18), so that everything routing derives from a node stays
/// within `coord_ok` and the `i32` sums of the original's router.
pub open spec fn place_fits(
    lanes: Seq<i32>, levels: Seq<i32>, shapes: Seq<Shape>, lane_list: Seq<i32>, level_list: Seq<i32>,
    bumps: Seq<i32>,
) -> bool {
    forall|i: int| 0 <= i < lanes.len() ==> {
        let r = #[trigger] spec_place_rect(lanes, levels, shapes, lane_list, level_list, bumps, i);
        r.2 <= 0x4_0000 && r.3 <= 0x4_0000
    }
}

pub open spec fn place_inputs_ok(
    lanes: Seq<i32>, levels: Seq<i32>, shapes: Seq<Shape>, lane_list: Seq<i32>, level_list: Seq<i32>,
    bumps: Seq<i32>,
) -> bool {
    &&& lanes.len() == levels.len() && lanes.len() == shapes.len()
    &&& lanes.len() <= 0x10_0000
    &&& strictly_sorted(lane_list) && same_values(lane_list, lanes)
    &&& strictly_sorted(level_list) && same_values(level_list, levels)
    &&& bumps.len() == level_list.len()
    &&& forall|k: int| 0 <= k < bumps.len() ==> 0 <= #[trigger] bumps[k] <= 1000
}

fn cell_count_exec(lanes: &[i32], levels: &[i32], i: usize, m: usize) -> (c: usize)
    requires
        lanes@.len() == levels@.len(),
        i < lanes@.len(),
        m <= lanes@.len(),
    ensures
        c == cell_count(lanes@, levels@, i as int, m as int),
        c <= m,
{
    let mut c: usize = 0;
    let mut j: usize = 0;
    while j < m
        invariant
            j <= m, m <= lanes@.len(), lanes@.len() == levels@.len(), i < lanes@.len(),
            c == cell_count(lanes@, levels@, i as int, j as int),
            c <= j,
        decreases m - j,
    {
        if lanes[j] == lanes[i] && levels[j] == levels[i] {
            c += 1;
        }
        j += 1;
    }
    c
}

proof fn lemma_cell_count_pos(lanes: Seq<i32>, levels: Seq<i32>, i: int, m: int)
    requires 0 <= i < m <= lanes.len(), lanes.len() == levels.len(),
    ensures cell_count(lanes, levels, i, m) >= 1,
    decreases m,
{
    if m - 1 > i {
        lemma_cell_count_pos(lanes, levels, i, m - 1);
    } else {
        lemma_cell_count_nonneg(lanes, levels, i, m - 1);
    }
}

proof fn lemma_cell_count_nonneg(lanes: Seq<i32>, levels: Seq<i32>, i: int, m: int)
    ensures cell_count(lanes, levels, i, m) >= 0,
    decreases m,
{
    if m > 0 {
        lemma_cell_count_nonneg(lanes, levels, i, m - 1);
    }
}

proof fn lemma_stack_bounds(lanes: Seq<i32>, levels: Seq<i32>, lv: i32, m: int)
    requires 0 <= m <= lanes.len(), lanes.len() == levels.len(),
    ensures 0 <= stack_upto(lanes, levels, lv, m) <= lanes.len(),
    decreases m,
{
    if m > 0 {
        lemma_stack_bounds(lanes, levels, lv, m - 1);
        lemma_cell_count_le(lanes, levels, m - 1, lanes.len() as int);
    }
}

proof fn lemma_cell_count_le(lanes: Seq<i32>, levels: Seq<i32>, i: int, m: int)
    ensures cell_count(lanes, levels, i, m) <= if m < 0 { 0 } else { m },
    decreases m,
{
    if m > 0 {
        lemma_cell_count_le(lanes, levels, i, m - 1);
    }
}

proof fn lemma_extra_mono(level_list: Seq<i32>, bumps: Seq<i32>, lanes: Seq<i32>, levels: Seq<i32>, a: int, b: int)
    requires
        0 <= a <= b <= bumps.len(), lanes.len() == levels.len(),
        forall|k: int| 0 <= k < bumps.len() ==> 0 <= #[trigger] bumps[k],
    ensures
        0 <= level_extra(level_list, bumps, lanes, levels, a) <= level_extra(level_list, bumps, lanes, levels, b),
    decreases b,
{
    if b > a {
        lemma_extra_mono(level_list, bumps, lanes, levels, a, b - 1);
        lemma_stack_bounds(lanes, levels, level_list[b - 1], lanes.len() as int);
    } else if a > 0 {
        lemma_extra_mono(level_list, bumps, lanes, levels, a - 1, a - 1);
        lemma_stack_bounds(lanes, levels, level_list[a - 1], lanes.len() as int);
    }
}

proof fn lemma_sorted_spread(s: Seq<i32>, k: int)
    requires strictly_sorted(s), 0 <= k < s.len(),
    ensures s[k] >= s[0] + k, k <= 0xffff_ffff,
    decreases k,
{
    if k > 0 {
        lemma_sorted_spread(s, k - 1);
        assert(s[k - 1] < s[k]);
    }
    assert(s[k] <= 0x7fff_ffff && s[0] >= -0x8000_0000);
}

proof fn lemma_pos_of(list: Seq<i32>, k: int)
    requires strictly_sorted(list), 0 <= k < list.len(),
    ensures pos_of(list, list[k]) == k,
{
    let j = pos_of(list, list[k]);
    assert(0 <= j < list.len() && list[j] == list[k]);
    if j < k {
        assert(list[j] < list[k]);
    } else if j > k {
        assert(list[k] < list[j]);
    }
}

fn stack_exec(levels: &[i32], sizes: &Vec<usize>, lv: i32, Ghost(lanes): Ghost<Seq<i32>>) -> (st: usize)
    requires
        lanes.len() == levels@.len(), sizes@.len() == levels@.len(),
        forall|i: int| 0 <= i < sizes@.len() ==> #[trigger] sizes@[i] == cell_count(lanes, levels@, i, lanes.len() as int),
    ensures
        st == stack_of(lanes, levels@, lv),
{
    let n = levels.len();
    let mut st: usize = 0;
    let mut i: usize = 0;
    while i < n
        invariant
            i <= n, n == levels@.len(), lanes.len() == n, sizes@.len() == n,
            forall|q: int| 0 <= q < sizes@.len() ==> #[trigger] sizes@[q] == cell_count(lanes, levels@, q, n as int),
            st == stack_upto(lanes, levels@, lv, i as int),
        decreases n - i,
    {
        if levels[i] == lv {
            proof { lemma_cell_count_pos(lanes, levels@, i as int, n as int); }
            let c = sizes[i] - 1;
            if c > st {
                st = c;
            }
        }
        i += 1;
    }
    st
}

/// Places the nodes on the canvas: node `i` gets `spec_place_rect`.
/// `lane_list` and `level_list` are the distinct lanes and levels in
/// ascending order, and `level_bump` the crowding bump of each level.
/// `None` when some node would fall outside the router's working box.
pub fn place_nodes(
    lanes: &[i32], levels: &[i32], shapes: &[Shape], lane_list: &[i32], level_list: &[i32], level_bump: &[i32],
) -> (r: Option<Vec<Rect>>)
    requires
        place_inputs_ok(lanes@, levels@, shapes@, lane_list@, level_list@, level_bump@),
    ensures
        r.is_some() <==> place_fits(lanes@, levels@, shapes@, lane_list@, level_list@, level_bump@),
        r matches Some(rs) ==> rs@.len() == lanes@.len() && forall|i: int| 0 <= i < lanes@.len() ==> {
            let q = #[trigger] spec_place_rect(lanes@, levels@, shapes@, lane_list@, level_list@, level_bump@, i);
            rs@[i].0 == q.0 && rs@[i].1 == q.1 && rs@[i].2 == q.2 && rs@[i].3 == q.3
        },
{
    let n = lanes.len();
    let ghost ls = lanes@;
    let ghost vs = levels@;
    let ghost ll = lane_list@;
    let ghost vl = level_list@;
    let ghost bs = level_bump@;
    let mut sizes: Vec<usize> = Vec::new();
    let mut i: usize = 0;
    while i < n
        invariant
            i <= n, n == ls.len(), ls == lanes@, vs == levels@, ls.len() == vs.len(),
            sizes@.len() == i,
            forall|q: int| 0 <= q < i ==> #[trigger] sizes@[q] == cell_count(ls, vs, q, n as int),
        decreases n - i,
    {
        let c = cell_count_exec(lanes, levels, i, n);
        sizes.push(c);
        i += 1;
    }
    let mut extras: Vec<i64> = Vec::new();
    let mut acc: i64 = 0;
    let mut k: usize = 0;
    while k < level_list.len()
        invariant
            k <= vl.len(), vl == level_list@, bs == level_bump@, ls == lanes@, vs == levels@, ll == lane_list@,
            place_inputs_ok(ls, vs, shapes@, ll, vl, bs),
            n == ls.len(), sizes@.len() == n,
            forall|q: int| 0 <= q < n ==> #[trigger] sizes@[q] == cell_count(ls, vs, q, n as int),
            extras@.len() == k,
            forall|q: int| 0 <= q < k ==> #[trigger] extras@[q] == level_extra(vl, bs, ls, vs, q),
            forall|q: int| 0 <= q < k ==> 0 <= #[trigger] extras@[q] <= 0x4_0000,
            acc == level_extra(vl, bs, ls, vs, k as int),
            0 <= acc <= 0x4_0000 + 1000 + 260 * 0x10_0000,
        decreases vl.len() - k,
    {
        if acc > 0x4_0000 {
            proof {
                let lv = vl[k as int];
                assert(vl.contains(lv));
                assert(vs.contains(lv));
                let j = choose|j: int| 0 <= j < vs.len() && vs[j] == lv;
                lemma_pos_of(vl, k as int);
                lemma_cell_count_nonneg(ls, vs, j, j);
                let q = spec_place_rect(ls, vs, shapes@, ll, vl, bs, j);
                assert(q.3 > 0x4_0000);
                assert(!place_fits(ls, vs, shapes@, ll, vl, bs));
            }
            return None;
        }
        extras.push(acc);
        let st = stack_exec(levels, &sizes, level_list[k], Ghost(ls));
        proof { lemma_stack_bounds(ls, vs, vl[k as int], n as int); }
        acc = acc + level_bump[k] as i64 + (st as i64) * 260;
        k += 1;
    }
    let mut out: Vec<Rect> = Vec::new();
    let mut i: usize = 0;
    while i < n
        invariant
            i <= n, n == ls.len(), vl == level_list@, bs == level_bump@, ls == lanes@, vs == levels@, ll == lane_list@,
            place_inputs_ok(ls, vs, shapes@, ll, vl, bs),
            extras@.len() == vl.len(),
            forall|q: int| 0 <= q < vl.len() ==> #[trigger] extras@[q] == level_extra(vl, bs, ls, vs, q),
            forall|q: int| 0 <= q < vl.len() ==> 0 <= #[trigger] extras@[q] <= 0x4_0000,
            out@.len() == i,
            forall|q: int| 0 <= q < i ==> {
                let t = #[trigger] spec_place_rect(ls, vs, shapes@, ll, vl, bs, q);
                out@[q].0 == t.0 && out@[q].1 == t.1 && out@[q].2 == t.2 && out@[q].3 == t.3
                    && t.2 <= 0x4_0000 && t.3 <= 0x4_0000
            },
        decreases n - i,
    {
        proof {
            assert(ll.contains(ls[i as int]) ) by { assert(ls.contains(ls[i as int])); }
            assert(vl.contains(vs[i as int])) by { assert(vs.contains(vs[i as int])); }
        }
        let lk = index_in(lane_list, lanes[i]);
        let vk = index_in(level_list, levels[i]);
        let ci = cell_count_exec(lanes, levels, i, i);
        proof {
            lemma_pos_of(ll, lk as int);
            lemma_pos_of(vl, vk as int);
            lemma_sorted_spread(ll, lk as int);
            lemma_sorted_spread(vl, vk as int);
        }
        let cx: i64 = 300 + (lk as i64) * 1300 + 600;
        let cy: i64 = 140 + (vk as i64) * 280 + extras[vk] + 120 + (ci as i64) * 260;
        let (w, h) = node_dims(shapes[i]);
        let hw = (w / 2) as i64;
        let hh = (h / 2) as i64;
        let ghost t = spec_place_rect(ls, vs, shapes@, ll, vl, bs, i as int);
        assert(cx + hw == t.2 && cy + hh == t.3);
        if cx + hw > 0x4_0000 || cy + hh > 0x4_0000 {
            return None;
        }
        out.push(((cx - hw) as i32, (cy - hh) as i32, (cx + hw) as i32, (cy + hh) as i32));
        i += 1;
    }
    Some(out)
}

/// An edge of the graph being drawn, between node indices. `back_edge` is
/// `None` when the graph file does not say.
#[derive(Debug, Clone)]
pub struct RenderEdge {
    pub from: usize,
    pub to: usize,
    pub label: Option<String>,
    pub back_edge: Option<bool>,
}

pub open spec fn edges_in(es: Seq<RenderEdge>, n: int) -> bool {
    forall|k: int| 0 <= k < es.len() ==> (#[trigger] es[k]).from < n && es[k].to < n
}

/// What one edge adds to the crowding of level `lv`: to how many of its
/// ends lie on `lv`; whether it spans more than one level and passes down
/// through `lv`; whether it is a forward edge of length at most one whose
/// lower end is on `lv`.
pub open spec fn edge_pressure(vs: Seq<i32>, e: RenderEdge, lv: i32) -> (int, int, int) {
    let sl = vs[e.from as int] as int;
    let dl = vs[e.to as int] as int;
    let lo = imin(sl, dl);
    let hi = imax(sl, dl);
    let is_back = match e.back_edge { Some(b) => b, None => false };
    (
        (if sl == lv { 1int } else { 0int }) + (if dl == lv { 1int } else { 0int }),
        if hi - lo > 1 && lo < lv && lv <= hi { 1int } else { 0int },
        if !is_back && iabs(dl - sl) <= 1 && hi == lv { 1int } else { 0int },
    )
}

/// The crowding of level `lv` summed over the first `m` edges.
pub open spec fn edges_pressure(vs: Seq<i32>, es: Seq<RenderEdge>, lv: i32, m: int) -> (int, int, int)
    decreases m,
{
    if m <= 0 {
        (0, 0, 0)
    } else {
        let p = edges_pressure(vs, es, lv, m - 1);
        let q = edge_pressure(vs, es[m - 1], lv);
        (p.0 + q.0, p.1 + q.1, p.2 + q.2)
    }
}

/// How many of the first `m` nodes are on level `lv`.
pub open spec fn level_count(vs: Seq<i32>, lv: i32, m: int) -> int
    decreases m,
{
    if m <= 0 { 0 } else { level_count(vs, lv, m - 1) + if vs[m - 1] == lv { 1int } else { 0int } }
}

/// The crowding of one level: its nodes, the edge ends on it, the long
/// edges passing through it, and the short forward edges ending on it.
#[derive(Debug, Clone, Copy, PartialEq, Eq, Structural)]
pub struct LevelStats {
    pub nodes: usize,
    pub edge_touch: usize,
    pub cross: usize,
    pub minlen: usize,
}

pub open spec fn spec_level_stats(vs: Seq<i32>, es: Seq<RenderEdge>, lv: i32) -> (int, int, int, int) {
    let p = edges_pressure(vs, es, lv, es.len() as int);
    (level_count(vs, lv, vs.len() as int), p.0, p.1, p.2)
}

proof fn lemma_pressure_bounds(vs: Seq<i32>, es: Seq<RenderEdge>, lv: i32, m: int)
    requires 0 <= m <= es.len(),
    ensures
        0 <= edges_pressure(vs, es, lv, m).0 <= 2 * m,
        0 <= edges_pressure(vs, es, lv, m).1 <= m,
        0 <= edges_pressure(vs, es, lv, m).2 <= m,
    decreases m,
{
    if m > 0 {
        lemma_pressure_bounds(vs, es, lv, m - 1);
    }
}

proof fn lemma_level_count_bound(vs: Seq<i32>, lv: i32, m: int)
    requires 0 <= m,
    ensures 0 <= level_count(vs, lv, m) <= m,
    decreases m,
{
    if m > 0 {
        lemma_level_count_bound(vs, lv, m - 1);
    }
}

/// The crowding statistics of each level of `level_list`
/// (`spec_level_stats`), from which the renderer decides how much extra
/// room each level gets.
pub fn level_stats(levels: &[i32], level_list: &[i32], edges: &[RenderEdge]) -> (r: Vec<LevelStats>)
    requires
        levels@.len() <= 0x1000_0000,
        edges@.len() <= 0x1000_0000,
        edges_in(edges@, levels@.len() as int),
    ensures
        r@.len() == level_list@.len(),
        forall|k: int| 0 <= k < r@.len() ==> {
            let t = #[trigger] spec_level_stats(levels@, edges@, level_list@[k]);
            r@[k].nodes == t.0 && r@[k].edge_touch == t.1 && r@[k].cross == t.2 && r@[k].minlen == t.3
        },
{
    let mut out: Vec<LevelStats> = Vec::new();
    let mut k: usize = 0;
    while k < level_list.len()
        invariant
            k <= level_list@.len(), out@.len() == k,
            levels@.len() <= 0x1000_0000, edges@.len() <= 0x1000_0000,
            edges_in(edges@, levels@.len() as int),
            forall|q: int| 0 <= q < k ==> {
                let t = #[trigger] spec_level_stats(levels@, edges@, level_list@[q]);
                out@[q].nodes == t.0 && out@[q].edge_touch == t.1 && out@[q].cross == t.2 && out@[q].minlen == t.3
            },
        decreases level_list@.len() - k,
    {
        let lv = level_list[k];
        let mut cnt: usize = 0;
        let mut i: usize = 0;
        while i < levels.len()
            invariant
                i <= levels@.len(), levels@.len() <= 0x1000_0000,
                cnt == level_count(levels@, lv, i as int),
            decreases levels@.len() - i,
        {
            proof { lemma_level_count_bound(levels@, lv, i as int); }
            if levels[i] == lv {
                cnt += 1;
            }
            i += 1;
        }
        let mut touch: usize = 0;
        let mut cross: usize = 0;
        let mut minlen: usize = 0;
        let mut j: usize = 0;
        while j < edges.len()
            invariant
                j <= edges@.len(), edges@.len() <= 0x1000_0000,
                edges_in(edges@, levels@.len() as int),
                touch == edges_pressure(levels@, edges@, lv, j as int).0,
                cross == edges_pressure(levels@, edges@, lv, j as int).1,
                minlen == edges_pressure(levels@, edges@, lv, j as int).2,
            decreases edges@.len() - j,
        {
            proof { lemma_pressure_bounds(levels@, edges@, lv, j as int); }
            let e = &edges[j];
            let sl = levels[e.from];
            let dl = levels[e.to];
            let is_back = match e.back_edge { Some(b) => b, None => false };
            if sl == lv {
                touch += 1;
            }
            if dl == lv {
                touch += 1;
            }
            let (lo, hi) = if sl <= dl { (sl, dl) } else { (dl, sl) };
            if (hi as i64) - (lo as i64) > 1 && lo < lv && lv <= hi {
                cross += 1;
            }
            let d = (dl as i64) - (sl as i64);
            if !is_back && -1 <= d && d <= 1 && hi == lv {
                minlen += 1;
            }
            j += 1;
        }
        out.push(LevelStats { nodes: cnt, edge_touch: touch, cross, minlen });
        k += 1;
    }
    out
}

/// The vertical gap kept between blocks of overlapping columns on
/// different levels.
pub const MIN_BLOCK_GAP: i32 = 180;

pub open spec fn small_rect(r: Rect) -> bool {
    small(r.0 as int) && small(r.1 as int) && small(r.2 as int) && small(r.3 as int)
}

pub open spec fn small_rects(rs: Seq<Rect>) -> bool {
    forall|i: int| 0 <= i < rs.len() ==> small_rect(#[trigger] rs[i])
}

/// How far node `b` must move down to keep `MIN_BLOCK_GAP` below node `a`:
/// only when `b` is on a deeper level and their columns overlap by at
/// least 100 px.
pub open spec fn pair_need(rs: Seq<Rect>, vs: Seq<i32>, a: int, b: int) -> int {
    let ra = rs[a];
    let rb = rs[b];
    if vs[b] <= vs[a] {
        0
    } else if imin(ra.2 as int, rb.2 as int) - imax(ra.0 as int, rb.0 as int) < 100 {
        0
    } else if (rb.1 - ra.3) < MIN_BLOCK_GAP {
        MIN_BLOCK_GAP - (rb.1 - ra.3)
    } else {
        0
    }
}

/// The largest need of a node on level `lv` below node `a`, among the
/// first `m` nodes.
pub open spec fn need_cols(rs: Seq<Rect>, vs: Seq<i32>, lv: i32, a: int, m: int) -> int
    decreases m,
{
    if m <= 0 {
        0
    } else {
        let p = need_cols(rs, vs, lv, a, m - 1);
        let q = if vs[m - 1] == lv { pair_need(rs, vs, a, m - 1) } else { 0 };
        imax(p, q)
    }
}

/// The largest need of a node on level `lv` below any of the first `m` nodes.
pub open spec fn need_rows(rs: Seq<Rect>, vs: Seq<i32>, lv: i32, m: int) -> int
    decreases m,
{
    if m <= 0 { 0 } else { imax(need_rows(rs, vs, lv, m - 1), need_cols(rs, vs, lv, m - 1, rs.len() as int)) }
}

/// How far level `lv`, and every level below it, moves down in one pass.
pub open spec fn level_need(rs: Seq<Rect>, vs: Seq<i32>, lv: i32) -> int {
    need_rows(rs, vs, lv, rs.len() as int)
}

/// The total move of the first `k` levels of `vl`.
pub open spec fn shift_prefix(rs: Seq<Rect>, vs: Seq<i32>, vl: Seq<i32>, k: int) -> int
    decreases k,
{
    if k <= 0 { 0 } else { shift_prefix(rs, vs, vl, k - 1) + level_need(rs, vs, vl[k - 1]) }
}

/// How far node `i` moves down in one pass: the moves of its level and of
/// every level above it.
pub open spec fn node_shift(rs: Seq<Rect>, vs: Seq<i32>, vl: Seq<i32>, i: int) -> int {
    shift_prefix(rs, vs, vl, pos_of(vl, vs[i]) + 1)
}

/// The rectangles after one pass.
pub open spec fn spec_shift_pass(rs: Seq<Rect>, vs: Seq<i32>, vl: Seq<i32>) -> Seq<Rect> {
    Seq::new(rs.len(), |i: int| {
        let d = node_shift(rs, vs, vl, i);
        (rs[i].0, (rs[i].1 + d) as i32, rs[i].2, (rs[i].3 + d) as i32)
    })
}

/// One pass keeps every node within the router's working box.
pub open spec fn shift_pass_fits(rs: Seq<Rect>, vs: Seq<i32>, vl: Seq<i32>) -> bool {
    forall|i: int| 0 <= i < rs.len() ==> rs[i].3 + #[trigger] node_shift(rs, vs, vl, i) <= 0x4_0000
}

/// Up to `p` passes, stopping at the first that moves nothing: the
/// rectangles, the number of passes that moved something, and the total
/// of the level moves; `None` when a pass leaves the working box.
pub open spec fn spec_spread(rs: Seq<Rect>, vs: Seq<i32>, vl: Seq<i32>, p: nat) -> Option<(Seq<Rect>, int, int)>
    decreases p,
{
    if p == 0 {
        Some((rs, 0, 0))
    } else if shift_prefix(rs, vs, vl, vl.len() as int) == 0 {
        Some((rs, 0, 0))
    } else if !shift_pass_fits(rs, vs, vl) {
        None
    } else {
        match spec_spread(spec_shift_pass(rs, vs, vl), vs, vl, (p - 1) as nat) {
            Some((r2, c, a)) => Some((r2, c + 1, a + shift_prefix(rs, vs, vl, vl.len() as int))),
            None => None,
        }
    }
}

pub open spec fn spread_inputs_ok(rs: Seq<Rect>, vs: Seq<i32>, vl: Seq<i32>) -> bool {
    &&& rs.len() == vs.len()
    &&& rs.len() <= 0x10_0000
    &&& small_rects(rs)
    &&& forall|i: int| 0 <= i < rs.len() ==> (#[trigger] rs[i]).1 <= rs[i].3
    &&& strictly_sorted(vl) && same_values(vl, vs)
}

proof fn lemma_need_bounds(rs: Seq<Rect>, vs: Seq<i32>, lv: i32, a: int, m: int)
    requires small_rects(rs), rs.len() == vs.len(), 0 <= a < rs.len(), m <= rs.len(),
    ensures 0 <= need_cols(rs, vs, lv, a, m) <= 0x9_0000,
    decreases m,
{
    if m > 0 {
        lemma_need_bounds(rs, vs, lv, a, m - 1);
        assert(small_rect(rs[a]) && small_rect(rs[m - 1]));
    }
}

proof fn lemma_rows_bounds(rs: Seq<Rect>, vs: Seq<i32>, lv: i32, m: int)
    requires small_rects(rs), rs.len() == vs.len(), m <= rs.len(),
    ensures 0 <= need_rows(rs, vs, lv, m) <= 0x9_0000,
    decreases m,
{
    if m > 0 {
        lemma_rows_bounds(rs, vs, lv, m - 1);
        lemma_need_bounds(rs, vs, lv, m - 1, rs.len() as int);
    }
}

proof fn lemma_prefix_bounds(rs: Seq<Rect>, vs: Seq<i32>, vl: Seq<i32>, a: int, b: int)
    requires small_rects(rs), rs.len() == vs.len(), 0 <= a <= b,
    ensures 0 <= shift_prefix(rs, vs, vl, a) <= shift_prefix(rs, vs, vl, b) <= b * 0x9_0000,
    decreases b,
{
    if b > a {
        lemma_prefix_bounds(rs, vs, vl, a, b - 1);
        lemma_rows_bounds(rs, vs, vl[b - 1], rs.len() as int);
    } else if b > 0 {
        lemma_prefix_bounds(rs, vs, vl, a - 1, b - 1);
        lemma_rows_bounds(rs, vs, vl[b - 1], rs.len() as int);
    }
}

fn pair_need_exec(rects: &[Rect], levels: &[i32], a: usize, b: usize) -> (r: i64)
    requires
        small_rects(rects@), rects@.len() == levels@.len(), a < rects@.len(), b < rects@.len(),
    ensures
        r == pair_need(rects@, levels@, a as int, b as int),
{
    let ra = rects[a];
    let rb = rects[b];
    proof { assert(small_rect(rects@[a as int]) && small_rect(rects@[b as int])); }
    if levels[b] <= levels[a] {
        return 0;
    }
    let lo_x2 = if ra.2 <= rb.2 { ra.2 } else { rb.2 };
    let hi_x1 = if ra.0 >= rb.0 { ra.0 } else { rb.0 };
    if (lo_x2 as i64) - (hi_x1 as i64) < 100 {
        return 0;
    }
    let gap = (rb.1 as i64) - (ra.3 as i64);
    if gap < MIN_BLOCK_GAP as i64 {
        MIN_BLOCK_GAP as i64 - gap
    } else {
        0
    }
}

/// Each level's move in one pass (`level_need`), in the order of `level_list`.
fn level_needs(rects: &[Rect], levels: &[i32], level_list: &[i32]) -> (needs: Vec<i64>)
    requires
        spread_inputs_ok(rects@, levels@, level_list@),
    ensures
        needs@.len() == level_list@.len(),
        forall|k: int| 0 <= k < needs@.len() ==> #[trigger] needs@[k] == level_need(rects@, levels@, level_list@[k]),
{
    let n = rects.len();
    let ghost rs = rects@;
    let ghost vs = levels@;
    let ghost vl = level_list@;
    let mut lidx: Vec<usize> = Vec::new();
    let mut b: usize = 0;
    while b < n
        invariant
            b <= n, n == rs.len(), rs == rects@, vs == levels@, vl == level_list@,
            spread_inputs_ok(rs, vs, vl),
            lidx@.len() == b,
            forall|q: int| 0 <= q < b ==> #[trigger] lidx@[q] < vl.len() && vl[lidx@[q] as int] == vs[q],
        decreases n - b,
    {
        proof { assert(vl.contains(vs[b as int])) by { assert(vs.contains(vs[b as int])); } }
        let k = index_in(level_list, levels[b]);
        lidx.push(k);
        b += 1;
    }
    let mut needs: Vec<i64> = Vec::new();
    let mut k: usize = 0;
    while k < level_list.len()
        invariant
            k <= vl.len(), vl == level_list@, needs@.len() == k,
            forall|q: int| 0 <= q < k ==> #[trigger] needs@[q] == 0,
        decreases vl.len() - k,
    {
        needs.push(0);
        k += 1;
    }
    let mut a: usize = 0;
    while a < n
        invariant
            a <= n, n == rs.len(), rs == rects@, vs == levels@, vl == level_list@,
            spread_inputs_ok(rs, vs, vl),
            lidx@.len() == n,
            forall|q: int| 0 <= q < n ==> #[trigger] lidx@[q] < vl.len() && vl[lidx@[q] as int] == vs[q],
            needs@.len() == vl.len(),
            forall|q: int| 0 <= q < vl.len() ==> #[trigger] needs@[q] == need_rows(rs, vs, vl[q], a as int),
        decreases n - a,
    {
        let mut b: usize = 0;
        while b < n
            invariant
                a < n, b <= n, n == rs.len(), rs == rects@, vs == levels@, vl == level_list@,
                spread_inputs_ok(rs, vs, vl),
                lidx@.len() == n,
                forall|q: int| 0 <= q < n ==> #[trigger] lidx@[q] < vl.len() && vl[lidx@[q] as int] == vs[q],
                needs@.len() == vl.len(),
                forall|q: int| 0 <= q < vl.len() ==> #[trigger] needs@[q]
                    == imax(need_rows(rs, vs, vl[q], a as int), need_cols(rs, vs, vl[q], a as int, b as int)),
            decreases n - b,
        {
            let nd = pair_need_exec(rects, levels, a, b);
            let kb = lidx[b];
            let ghost before = needs@;
            proof {
                assert forall|q: int| 0 <= q < vl.len() implies
                    need_cols(rs, vs, vl[q], a as int, b + 1) == imax(need_cols(rs, vs, vl[q], a as int, b as int),
                        if q == kb { nd as int } else { 0 }) by {
                    if vs[b as int] == vl[q] && q != kb {
                        if q < kb { assert(vl[q] < vl[kb as int]); } else { assert(vl[kb as int] < vl[q]); }
                    }
                }
                assert forall|q: int| 0 <= q < vl.len() implies
                    0 <= #[trigger] need_cols(rs, vs, vl[q], a as int, b as int) && 0 <= need_rows(rs, vs, vl[q], a as int) by {
                    lemma_need_bounds(rs, vs, vl[q], a as int, b as int);
                    lemma_rows_bounds(rs, vs, vl[q], a as int);
                }
                lemma_need_bounds(rs, vs, vl[kb as int], a as int, b + 1);
            }
            if nd > needs[kb] {
                needs.set(kb, nd);
            }
            proof {
                assert forall|q: int| 0 <= q < vl.len() implies #[trigger] needs@[q]
                    == imax(need_rows(rs, vs, vl[q], a as int), need_cols(rs, vs, vl[q], a as int, b + 1)) by {
                    lemma_need_bounds(rs, vs, vl[q], a as int, b as int);
                    lemma_rows_bounds(rs, vs, vl[q], a as int);
                }
            }
            b += 1;
        }
        a += 1;
    }
    needs
}

/// One pass of pushing levels down: the moved rectangles (`None` when one
/// would leave the working box) and the total of the level moves.
fn shift_pass(rects: &[Rect], levels: &[i32], level_list: &[i32]) -> (r: (Option<Vec<Rect>>, i64))
    requires
        spread_inputs_ok(rects@, levels@, level_list@),
    ensures
        r.1 == shift_prefix(rects@, levels@, level_list@, level_list@.len() as int),
        r.0.is_some() <==> shift_pass_fits(rects@, levels@, level_list@),
        r.0 matches Some(v) ==> v@ == spec_shift_pass(rects@, levels@, level_list@)
            && spread_inputs_ok(v@, levels@, level_list@),
{
    let ghost rs = rects@;
    let ghost vs = levels@;
    let ghost vl = level_list@;
    let needs = level_needs(rects, levels, level_list);
    let mut pre: Vec<i64> = Vec::new();
    pre.push(0);
    let mut acc: i64 = 0;
    let mut k: usize = 0;
    while k < needs.len()
        invariant
            k <= needs@.len(), needs@.len() == vl.len(),
            spread_inputs_ok(rs, vs, vl), rs == rects@, vs == levels@, vl == level_list@,
            forall|q: int| 0 <= q < needs@.len() ==> #[trigger] needs@[q] == level_need(rs, vs, vl[q]),
            pre@.len() == k + 1,
            forall|q: int| 0 <= q <= k ==> #[trigger] pre@[q] == shift_prefix(rs, vs, vl, q),
            acc == shift_prefix(rs, vs, vl, k as int),
        decreases needs@.len() - k,
    {
        proof {
            lemma_prefix_bounds(rs, vs, vl, k as int, k + 1);
            lemma_sorted_spread(vl, k as int);
        }
        acc = acc + needs[k];
        pre.push(acc);
        k += 1;
    }
    let n = rects.len();
    let mut out: Vec<Rect> = Vec::new();
    let mut i: usize = 0;
    while i < n
        invariant
            i <= n, n == rs.len(), rs == rects@, vs == levels@, vl == level_list@,
            spread_inputs_ok(rs, vs, vl),
            pre@.len() == vl.len() + 1,
            forall|q: int| 0 <= q <= vl.len() ==> #[trigger] pre@[q] == shift_prefix(rs, vs, vl, q),
            acc == shift_prefix(rs, vs, vl, vl.len() as int),
            out@.len() == i,
            forall|q: int| 0 <= q < i ==> #[trigger] out@[q] == spec_shift_pass(rs, vs, vl)[q]
                && rs[q].3 + node_shift(rs, vs, vl, q) <= 0x4_0000,
        decreases n - i,
    {
        proof { assert(vl.contains(vs[i as int])) by { assert(vs.contains(vs[i as int])); } }
        let vk = index_in(level_list, levels[i]);
        proof {
            lemma_pos_of(vl, vk as int);
            lemma_prefix_bounds(rs, vs, vl, vk + 1, vk + 1);
            lemma_sorted_spread(vl, vk as int);
            assert(small_rect(rs[i as int]));
        }
        assert(vk < level_list.len());
        let d = pre[vk + 1];
        let r = rects[i];
        if (r.3 as i64) + d > 0x4_0000 {
            proof {
                assert(rs[i as int].3 + node_shift(rs, vs, vl, i as int) > 0x4_0000);
            }
            return (None, acc);
        }
        let nr = (r.0, ((r.1 as i64) + d) as i32, r.2, ((r.3 as i64) + d) as i32);
        proof {
            assert(node_shift(rs, vs, vl, i as int) == d);
            assert(spec_shift_pass(rs, vs, vl)[i as int] == nr);
        }
        out.push(nr);
        i += 1;
    }
    proof {
        assert forall|q: int| 0 <= q < n implies rs[q].3 + #[trigger] node_shift(rs, vs, vl, q) <= 0x4_0000 by {
            assert(out@[q] == spec_shift_pass(rs, vs, vl)[q]);
        }
        assert(out@ =~= spec_shift_pass(rs, vs, vl));
        assert forall|q: int| 0 <= q < out@.len() implies small_rect(#[trigger] out@[q]) && out@[q].1 <= out@[q].3 by {
            assert(small_rect(rs[q]));
            lemma_pos_of_any(vl, vs[q]);
            lemma_prefix_bounds(rs, vs, vl, 0, pos_of(vl, vs[q]) + 1);
        }
    }
    (Some(out), acc)
}

proof fn lemma_pos_of_any(list: Seq<i32>, x: i32)
    requires list.contains(x),
    ensures 0 <= pos_of(list, x) < list.len() && list[pos_of(list, x)] == x,
{
}

/// Pushes levels down, in up to ten passes, until every pair of blocks in
/// overlapping columns on different levels keeps `MIN_BLOCK_GAP`
/// (`spec_spread`): the rectangles, the passes that moved something, and
/// the total of the level moves. `None` when a node would leave the
/// router's working box.
#[verifier::loop_isolation(false)]
pub fn spread_levels(rects: Vec<Rect>, levels: &[i32], level_list: &[i32]) -> (r: Option<(Vec<Rect>, i32, i64)>)
    requires
        spread_inputs_ok(rects@, levels@, level_list@),
    ensures
        match r {
            Some((v, c, a)) => spec_spread(rects@, levels@, level_list@, 10) == Some((v@, c as int, a as int)),
            None => spec_spread(rects@, levels@, level_list@, 10) is None,
        },
{
    let ghost rs0 = rects@;
    let ghost vs = levels@;
    let ghost vl = level_list@;
    let mut cur = rects;
    let mut c: i32 = 0;
    let mut a: i64 = 0;
    let mut p: usize = 10;
    while p > 0
        invariant
            p <= 10, c == 10 - p, 0 <= a <= (10 - p) * 0x1_0000_0000 * 0x9_0000,
            vs == levels@, vl == level_list@,
            spread_inputs_ok(cur@, vs, vl),
            spec_spread(rs0, vs, vl, 10) == match spec_spread(cur@, vs, vl, p as nat) {
                Some((r2, c2, a2)) => Some((r2, c + c2, a + a2)),
                None => None,
            },
        decreases p,
    {
        let (next, total) = shift_pass(&cur, levels, level_list);
        proof {
            lemma_prefix_bounds(cur@, vs, vl, 0, vl.len() as int);
            lemma_sorted_spread_len(vl);
        }
        if total == 0 {
            assert(spec_spread(cur@, vs, vl, p as nat) == Some((cur@, 0int, 0int)));
            assert(spec_spread(rs0, vs, vl, 10) == Some((cur@, c as int, a as int)));
            return Some((cur, c, a));
        }
        match next {
            None => {
                assert(spec_spread(cur@, vs, vl, p as nat) is None);
                assert(spec_spread(rs0, vs, vl, 10) is None);
                return None;
            },
            Some(v) => {
                assert(spec_spread(cur@, vs, vl, p as nat) == match spec_spread(v@, vs, vl, (p - 1) as nat) {
                    Some((r2, c2, a2)) => Some((r2, c2 + 1, a2 + total)),
                    None => None,
                });
                cur = v;
                c = c + 1;
                a = a + total;
            },
        }
        p = p - 1;
    }
    Some((cur, c, a))
}

proof fn lemma_sorted_spread_len(s: Seq<i32>)
    requires strictly_sorted(s),
    ensures s.len() <= 0x1_0000_0000,
{
    if s.len() > 0 {
        lemma_sorted_spread(s, s.len() - 1);
    }
}

/// How far node `i` moved down between two placements (never negative).
pub open spec fn moved(before: Seq<Rect>, after: Seq<Rect>, i: int) -> int {
    imax(0, after[i].1 - before[i].1)
}

/// Over the first `m` nodes: how many moved, the total and the largest move.
pub open spec fn spec_shift_summary(before: Seq<Rect>, after: Seq<Rect>, m: int) -> (int, int, int)
    decreases m,
{
    if m <= 0 {
        (0, 0, 0)
    } else {
        let p = spec_shift_summary(before, after, m - 1);
        let d = moved(before, after, m - 1);
        (p.0 + if d > 0 { 1int } else { 0int }, p.1 + d, imax(p.2, d))
    }
}

/// Summarises how far the nodes moved between two placements: the number
/// of nodes that moved, the total and the largest move.
pub fn shift_summary(before: &[Rect], after: &[Rect]) -> (r: (usize, i64, i64))
    requires
        before@.len() == after@.len(),
        before@.len() <= 0x10_0000,
    ensures
        r.0 == spec_shift_summary(before@, after@, before@.len() as int).0,
        r.1 == spec_shift_summary(before@, after@, before@.len() as int).1,
        r.2 == spec_shift_summary(before@, after@, before@.len() as int).2,
{
    let mut cnt: usize = 0;
    let mut total: i64 = 0;
    let mut mx: i64 = 0;
    let mut i: usize = 0;
    while i < before.len()
        invariant
            i <= before@.len(), before@.len() == after@.len(), before@.len() <= 0x10_0000,
            cnt == spec_shift_summary(before@, after@, i as int).0,
            total == spec_shift_summary(before@, after@, i as int).1,
            mx == spec_shift_summary(before@, after@, i as int).2,
            cnt <= i, 0 <= total <= i * 0x1_0000_0000, 0 <= mx <= 0x1_0000_0000,
        decreases before@.len() - i,
    {
        let d0 = (after[i].1 as i64) - (before[i].1 as i64);
        let d = if d0 > 0 { d0 } else { 0 };
        if d > 0 {
            cnt += 1;
        }
        total = total + d;
        if d > mx {
            mx = d;
        }
        i += 1;
    }
    (cnt, total, mx)
}

/// The largest right (`x`) or bottom (`!x`) edge of the first `m`
/// rectangles plus `pad`, or `dflt` when there are none.
pub open spec fn max_edge(rs: Seq<Rect>, m: int, x: bool, pad: int, dflt: int) -> int
    decreases m,
{
    if m <= 0 {
        dflt
    } else {
        let v = (if x { rs[m - 1].2 } else { rs[m - 1].3 }) + pad;
        if m == 1 { v } else { imax(max_edge(rs, m - 1, x, pad, dflt), v) }
    }
}

/// The canvas: wide enough for the lanes and tall enough for the levels
/// (with generous margins), and grown to hold every node with room for
/// the outer lanes and labels.
pub open spec fn spec_canvas(n_lanes: int, n_levels: int, rs: Seq<Rect>) -> (int, int) {
    let w0 = 300 * 2 + imax(1, n_lanes - 1) * 1300 + 1800;
    let h0 = 140 * 2 + imax(1, n_levels) * 280 + 360;
    let n = rs.len() as int;
    (imax(w0, max_edge(rs, n, true, 260, w0)), imax(h0, max_edge(rs, n, false, 320, h0)))
}

/// The canvas size (`spec_canvas`). The bounds on the counts keep
/// `1300` per lane and `280` per level within `i32`.
pub fn canvas_size(n_lanes: usize, n_levels: usize, rects: &[Rect]) -> (r: (i32, i32))
    requires
        n_lanes <= 0x10_0000, n_levels <= 0x40_0000, small_rects(rects@),
    ensures
        r.0 == spec_canvas(n_lanes as int, n_levels as int, rects@).0,
        r.1 == spec_canvas(n_lanes as int, n_levels as int, rects@).1,
{
    let w0: i32 = 600 + (if n_lanes >= 2 { (n_lanes - 1) as i32 } else { 1 }) * 1300 + 1800;
    let h0: i32 = 280 + (if n_levels >= 1 { n_levels as i32 } else { 1 }) * 280 + 360;
    let mut mw: i32 = w0;
    let mut mh: i32 = h0;
    let mut i: usize = 0;
    while i < rects.len()
        invariant
            i <= rects@.len(), small_rects(rects@),
            mw == max_edge(rects@, i as int, true, 260, w0 as int),
            mh == max_edge(rects@, i as int, false, 320, h0 as int),
            -0x4_0000 <= mw <= 0x5200_0000, -0x4_0000 <= mh <= 0x5000_0000, 0 <= w0 <= 0x5200_0000, 0 <= h0 <= 0x5000_0000,
        decreases rects@.len() - i,
    {
        proof { assert(small_rect(rects@[i as int])); }
        let r = rects[i];
        if i == 0 {
            mw = r.2 + 260;
            mh = r.3 + 320;
        } else {
            if r.2 + 260 > mw { mw = r.2 + 260; }
            if r.3 + 320 > mh { mh = r.3 + 320; }
        }
        i += 1;
    }
    (if mw > w0 { mw } else { w0 }, if mh > h0 { mh } else { h0 })
}

proof fn lemma_cols_ge(rs: Seq<Rect>, vs: Seq<i32>, lv: i32, a: int, m: int, b: int)
    requires 0 <= b < m, vs[b] == lv, small_rects(rs), rs.len() == vs.len(), 0 <= a < rs.len(), m <= rs.len(),
    ensures need_cols(rs, vs, lv, a, m) >= pair_need(rs, vs, a, b),
    decreases m,
{
    if m - 1 > b {
        lemma_cols_ge(rs, vs, lv, a, m - 1, b);
    }
}

proof fn lemma_rows_ge(rs: Seq<Rect>, vs: Seq<i32>, lv: i32, m: int, a: int)
    requires 0 <= a < m, small_rects(rs), rs.len() == vs.len(), m <= rs.len(),
    ensures need_rows(rs, vs, lv, m) >= need_cols(rs, vs, lv, a, rs.len() as int),
    decreases m,
{
    if m - 1 > a {
        lemma_rows_ge(rs, vs, lv, m - 1, a);
    }
}

proof fn lemma_prefix_ge(rs: Seq<Rect>, vs: Seq<i32>, vl: Seq<i32>, k: int, m: int)
    requires 0 <= k < m, small_rects(rs), rs.len() == vs.len(),
    ensures shift_prefix(rs, vs, vl, m) >= level_need(rs, vs, vl[k]),
    decreases m,
{
    lemma_prefix_bounds(rs, vs, vl, 0, m - 1);
    lemma_rows_bounds(rs, vs, vl[m - 1], rs.len() as int);
    if m - 1 > k {
        lemma_prefix_ge(rs, vs, vl, k, m - 1);
    }
}

/// Every pair of nodes on different levels whose columns overlap by at
/// least 100 px is at least `MIN_BLOCK_GAP` apart.
pub open spec fn gaps_hold(rs: Seq<Rect>, vs: Seq<i32>) -> bool {
    forall|a: int, b: int| 0 <= a < rs.len() && 0 <= b < rs.len() && vs[a] < vs[b]
        && imin(rs[a].2 as int, rs[b].2 as int) - imax(rs[a].0 as int, rs[b].0 as int) >= 100
        ==> #[trigger] rs[b].1 - #[trigger] rs[a].3 >= MIN_BLOCK_GAP
}

proof fn lemma_settled(rs: Seq<Rect>, vs: Seq<i32>, vl: Seq<i32>)
    requires spread_inputs_ok(rs, vs, vl), shift_prefix(rs, vs, vl, vl.len() as int) == 0,
    ensures gaps_hold(rs, vs),
{
    assert forall|a: int, b: int| 0 <= a < rs.len() && 0 <= b < rs.len() && vs[a] < vs[b]
        && imin(rs[a].2 as int, rs[b].2 as int) - imax(rs[a].0 as int, rs[b].0 as int) >= 100
        implies #[trigger] rs[b].1 - #[trigger] rs[a].3 >= MIN_BLOCK_GAP by {
        assert(vs.contains(vs[b]));
        assert(vl.contains(vs[b]));
        let k = choose|k: int| 0 <= k < vl.len() && vl[k] == vs[b];
        lemma_prefix_ge(rs, vs, vl, k, vl.len() as int);
        lemma_rows_ge(rs, vs, vs[b], rs.len() as int, a);
        lemma_cols_ge(rs, vs, vs[b], a, rs.len() as int, b);
        assert(pair_need(rs, vs, a, b) <= 0);
    }
}

proof fn lemma_pass_ok(rs: Seq<Rect>, vs: Seq<i32>, vl: Seq<i32>)
    requires spread_inputs_ok(rs, vs, vl), shift_pass_fits(rs, vs, vl),
    ensures spread_inputs_ok(spec_shift_pass(rs, vs, vl), vs, vl),
{
    let out = spec_shift_pass(rs, vs, vl);
    assert forall|q: int| 0 <= q < out.len() implies small_rect(#[trigger] out[q]) by {
        assert(small_rect(rs[q]));
        lemma_pos_of_any(vl, vs[q]);
        assert(vl.contains(vs[q])) by { assert(vs.contains(vs[q])); }
        lemma_pos_of_any(vl, vs[q]);
        lemma_prefix_bounds(rs, vs, vl, 0, pos_of(vl, vs[q]) + 1);
        assert(rs[q].3 + node_shift(rs, vs, vl, q) <= 0x4_0000);
    }
    assert forall|q: int| 0 <= q < out.len() implies (#[trigger] out[q]).1 <= out[q].3 by {
        assert(small_rect(rs[q]));
        assert(vl.contains(vs[q])) by { assert(vs.contains(vs[q])); }
        lemma_pos_of_any(vl, vs[q]);
        lemma_prefix_bounds(rs, vs, vl, 0, pos_of(vl, vs[q]) + 1);
        assert(rs[q].3 + node_shift(rs, vs, vl, q) <= 0x4_0000);
    }
}

/// When the levels settle in fewer passes than allowed, every pair of
/// nodes on different levels whose columns overlap by at least 100 px
/// ends at least `MIN_BLOCK_GAP` apart.
pub proof fn lemma_spread_settles(rs: Seq<Rect>, vs: Seq<i32>, vl: Seq<i32>, p: nat)
    requires spread_inputs_ok(rs, vs, vl),
    ensures
        match spec_spread(rs, vs, vl, p) {
            Some((r2, c, _a)) => c < p ==> gaps_hold(r2, vs),
            None => true,
        },
    decreases p,
{
    if p > 0 {
        if shift_prefix(rs, vs, vl, vl.len() as int) == 0 {
            lemma_settled(rs, vs, vl);
        } else if shift_pass_fits(rs, vs, vl) {
            lemma_pass_ok(rs, vs, vl);
            lemma_spread_settles(spec_shift_pass(rs, vs, vl), vs, vl, (p - 1) as nat);
        }
    }
}

} // verus!
