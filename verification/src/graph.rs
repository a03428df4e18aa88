//! The flow graph produced by the source parsers: nodes with shapes and
//! source line ranges, labelled edges, and the level assignment that the
//! layout uses.
use vstd::prelude::*;
use crate::geometry::Shape;
use crate::text::label_is;

verus! {

/// A flowchart node. Its id `k` is written `n{k}` in the graph file.
#[derive(Debug)]
pub struct Node {
    pub id: usize,
    pub shape: Shape,
    pub text: String,
    pub line_start: Option<usize>,
    pub line_end: Option<usize>,
    pub lane: i32,
    pub level: Option<i32>,
}

/// A flow edge between node ids.
#[derive(Debug)]
pub struct Edge {
    pub from: usize,
    pub to: usize,
    pub label: Option<String>,
    pub back_edge: bool,
}

/// A dangling exit of a block: the node it leaves and the label its edge
/// will carry.
#[derive(Debug)]
pub struct Exit {
    pub node_id: usize,
    pub label: Option<String>,
}

pub open spec fn opt_view(o: Option<String>) -> Option<Seq<char>> {
    match o {
        Some(s) => Some(s@),
        None => None,
    }
}

pub ghost struct NodeView {
    pub id: usize,
    pub shape: Shape,
    pub text: Seq<char>,
    pub line_start: Option<usize>,
    pub line_end: Option<usize>,
    pub lane: i32,
    pub level: Option<i32>,
}

pub ghost struct EdgeView {
    pub from: usize,
    pub to: usize,
    pub label: Option<Seq<char>>,
    pub back_edge: bool,
}

impl View for Node {
    type V = NodeView;

    open spec fn view(&self) -> NodeView {
        NodeView {
            id: self.id,
            shape: self.shape,
            text: self.text@,
            line_start: self.line_start,
            line_end: self.line_end,
            lane: self.lane,
            level: self.level,
        }
    }
}

impl View for Edge {
    type V = EdgeView;

    open spec fn view(&self) -> EdgeView {
        EdgeView { from: self.from, to: self.to, label: opt_view(self.label), back_edge: self.back_edge }
    }
}

impl View for Exit {
    type V = (usize, Option<Seq<char>>);

    open spec fn view(&self) -> (usize, Option<Seq<char>>) {
        (self.node_id, opt_view(self.label))
    }
}

pub open spec fn nodes_view(v: Seq<Node>) -> Seq<NodeView> {
    v.map_values(|n: Node| n@)
}

pub open spec fn edges_view(v: Seq<Edge>) -> Seq<EdgeView> {
    v.map_values(|e: Edge| e@)
}

pub open spec fn exits_view(v: Seq<Exit>) -> Seq<(usize, Option<Seq<char>>)> {
    v.map_values(|e: Exit| e@)
}

/// Node ids run 1, 2, ... in order and every edge joins two of them.
pub open spec fn graph_wf(nodes: Seq<Node>, edges: Seq<Edge>, next_id: usize) -> bool {
    &&& next_id == nodes.len() + 1
    &&& forall|k: int| 0 <= k < nodes.len() ==> (#[trigger] nodes[k]).id == k + 1
    &&& forall|k: int| 0 <= k < edges.len() ==>
        1 <= (#[trigger] edges[k]).from < next_id && 1 <= edges[k].to < next_id
}

/// Every exit leaves an existing node.
pub open spec fn exits_ok(exits: Seq<(usize, Option<Seq<char>>)>, next_id: usize) -> bool {
    forall|k: int| 0 <= k < exits.len() ==> 1 <= (#[trigger] exits[k]).0 < next_id
}

/// A copy of an optional label.
pub fn clone_label(l: &Option<String>) -> (r: Option<String>)
    ensures opt_view(r) == opt_view(*l),
{
    match l {
        Some(s) => Some(s.clone()),
        None => None,
    }
}

/// `s` with at most its first 180 characters, as node texts are stored.
pub open spec fn spec_clip_text(s: Seq<char>) -> Seq<char> {
    if s.len() <= 180 { s } else { s.take(180) }
}

pub fn clip_text(text: String) -> (r: String)
    ensures r@ == spec_clip_text(text@),
{
    let cs = crate::text::chars_of(text.as_str());
    if cs.len() <= 180 {
        text
    } else {
        let head = crate::text::slice_vec(&cs, 0, 180);
        crate::text::string_of(&head)
    }
}

/// The edges `connect` adds: one from each exit to `dst`, labelled with the
/// exit's label or else `default_label`.
pub open spec fn spec_connect_edges(incoming: Seq<(usize, Option<Seq<char>>)>, dst: usize, default_label: Option<Seq<char>>)
    -> Seq<EdgeView> {
    incoming.map_values(|ex: (usize, Option<Seq<char>>)|
        EdgeView { from: ex.0, to: dst, label: if ex.1 is Some { ex.1 } else { default_label }, back_edge: false })
}

/// Appends an edge from every exit in `incoming` to `dst`.
pub fn connect_edges(edges: &mut Vec<Edge>, incoming: &[Exit], dst: usize, default_label: Option<&str>)
    ensures
        edges_view(final(edges)@) == edges_view(old(edges)@) + spec_connect_edges(exits_view(incoming@), dst,
            match default_label { Some(s) => Some(s@), None => None }),
{
    let ghost e0 = edges_view(edges@);
    let ghost dl: Option<Seq<char>> = match default_label { Some(s) => Some(s@), None => None };
    let mut k: usize = 0;
    while k < incoming.len()
        invariant
            k <= incoming.len(),
            dl == (match default_label { Some(s) => Some(s@), None => None }),
            edges_view(edges@) == e0 + spec_connect_edges(exits_view(incoming@.take(k as int)), dst, dl),
        decreases incoming.len() - k,
    {
        let ex = &incoming[k];
        let label = match &ex.label {
            Some(s) => Some(s.clone()),
            None => match default_label {
                Some(d) => Some(String::from_str(d)),
                None => None,
            },
        };
        let ghost before = edges_view(edges@);
        edges.push(Edge { from: ex.node_id, to: dst, label, back_edge: false });
        proof {
            assert(exits_view(incoming@.take(k + 1)) =~= exits_view(incoming@.take(k as int)).push(incoming@[k as int]@));
            assert(edges_view(edges@) =~= before.push(edges@.last()@));
        }
        k += 1;
        assert(edges_view(edges@) =~= e0 + spec_connect_edges(exits_view(incoming@.take(k as int)), dst, dl));
    }
    assert(incoming@.take(incoming@.len() as int) =~= incoming@);
}

/// Appends a node with the next id and returns that id.
pub fn push_node(
    nodes: &mut Vec<Node>,
    next_id: &mut usize,
    shape: Shape,
    text: String,
    line_start: Option<usize>,
    line_end: Option<usize>,
    lane: i32,
) -> (id: usize)
    requires *old(next_id) < usize::MAX,
    ensures
        id == *old(next_id),
        *final(next_id) == id + 1,
        nodes_view(final(nodes)@) == nodes_view(old(nodes)@).push(NodeView {
            id, shape, text: text@, line_start, line_end, lane, level: None,
        }),
        final(nodes)@.len() == old(nodes)@.len() + 1,
        forall|k: int| 0 <= k < old(nodes)@.len() ==> (#[trigger] final(nodes)@[k]).id == old(nodes)@[k].id,
        final(nodes)@.last().id == id,
{
    let id = *next_id;
    *next_id = *next_id + 1;
    let ghost n0 = nodes_view(nodes@);
    nodes.push(Node { id, shape, text, line_start, line_end, lane, level: None });
    assert(nodes_view(nodes@) =~= n0.push(nodes@.last()@));
    id
}

/// The distinct positive start lines of the nodes, in first-occurrence
/// order.
pub open spec fn distinct_lines(ns: Seq<NodeView>) -> Seq<usize>
    decreases ns.len(),
{
    if ns.len() == 0 {
        Seq::empty()
    } else {
        let prev = distinct_lines(ns.drop_last());
        let ls = ns.last().line_start;
        if ls is Some && ls->0 > 0 && !prev.contains(ls->0) { prev.push(ls->0) } else { prev }
    }
}

/// Number of the first `k` values of `d` below `x`.
pub open spec fn count_less(d: Seq<usize>, x: usize, k: int) -> int
    decreases k,
{
    if k <= 0 { 0 } else { count_less(d, x, k - 1) + if d[k - 1] < x { 1int } else { 0int } }
}

/// The rank of start line `x` among the distinct start lines (1 for the
/// smallest), or 1 for a line that is not among them.
pub open spec fn spec_rank(d: Seq<usize>, x: usize) -> int {
    if d.contains(x) { 1 + count_less(d, x, d.len() as int) } else { 1 }
}

/// The largest rank, or 1 when no node has a start line.
pub open spec fn spec_top(d: Seq<usize>) -> int {
    if d.len() == 0 { 1 } else { d.len() as int }
}

/// The level a node starts from: 0 for the start node, else its line rank
/// grouped `bucket` ranks to a level, and nodes without a line one level
/// below all others.
pub open spec fn init_level(n: NodeView, start_id: usize, d: Seq<usize>, bucket: int) -> int {
    if n.id == start_id {
        0
    } else if n.line_start is Some {
        1 + (spec_rank(d, n.line_start->0) - 1) / bucket
    } else {
        1 + (spec_top(d) - 1) / bucket + 1
    }
}

pub open spec fn is_next(l: Option<Seq<char>>) -> bool {
    l == Some("next"@)
}

/// One pass over the first `k` edges: every edge other than a loop's back
/// edge pushes its target below its source; returns whether any level
/// changed.
pub open spec fn relax_pass(lv: Seq<int>, es: Seq<EdgeView>, k: int) -> (Seq<int>, bool)
    decreases k,
{
    if k <= 0 {
        (lv, false)
    } else {
        let (l, ch) = relax_pass(lv, es, k - 1);
        let e = es[k - 1];
        if is_next(e.label) {
            (l, ch)
        } else if l[e.to - 1] <= l[e.from - 1] {
            (l.update(e.to - 1, l[e.from - 1] + 1), true)
        } else {
            (l, ch)
        }
    }
}

/// Up to `passes` passes, stopping after the first that changes nothing.
pub open spec fn relax(lv: Seq<int>, es: Seq<EdgeView>, passes: int) -> Seq<int>
    decreases passes,
{
    if passes <= 0 {
        lv
    } else {
        let (l, ch) = relax_pass(lv, es, es.len() as int);
        if ch { relax(l, es, passes - 1) } else { l }
    }
}

pub open spec fn seq_max(s: Seq<int>, k: int) -> int
    decreases k,
{
    if k <= 0 { 0 } else if k == 1 { s[0] } else if s[k - 1] > seq_max(s, k - 1) { s[k - 1] } else { seq_max(s, k - 1) }
}

/// The levels after relaxation, with the end node one level below the
/// deepest node.
pub open spec fn spec_final_levels(ns: Seq<NodeView>, es: Seq<EdgeView>, start_id: usize, end_id: usize, bucket: int) -> Seq<int> {
    let d = distinct_lines(ns);
    let init = Seq::new(ns.len(), |k: int| init_level(ns[k], start_id, d, bucket));
    let l = relax(init, es, 4 * ns.len() as int);
    if 1 <= end_id <= ns.len() { l.update(end_id - 1, seq_max(l, l.len() as int) + 1) } else { l }
}

/// Whether the levels can be computed in `i32`: fewer nodes than an `i32`
/// counts, and no level, the End node's included, above `i32::MAX`. Where
/// a level would pass `i32::MAX`, the `+ 1` that raises it overflows.
pub open spec fn levels_fit(ns: Seq<NodeView>, es: Seq<EdgeView>, start_id: usize, end_id: usize, bucket: int) -> bool {
    let lv = spec_final_levels(ns, es, start_id, end_id, bucket);
    &&& ns.len() < 0x7fff_ffff
    &&& forall|k: int| 0 <= k < ns.len() ==> #[trigger] lv[k] <= 0x7fff_ffff
}

fn contains_usize(v: &Vec<usize>, x: usize) -> (r: bool)
    ensures r == v@.contains(x),
{
    let mut i: usize = 0;
    while i < v.len()
        invariant i <= v.len(), forall|k: int| 0 <= k < i ==> v@[k] != x,
        decreases v.len() - i,
    {
        if v[i] == x {
            return true;
        }
        i += 1;
    }
    false
}

fn distinct_lines_exec(nodes: &[Node]) -> (d: Vec<usize>)
    ensures d@ == distinct_lines(nodes_view(nodes@)),
        d@.len() <= nodes@.len(),
{
    let ghost ns = nodes_view(nodes@);
    let mut d: Vec<usize> = Vec::new();
    let mut i: usize = 0;
    while i < nodes.len()
        invariant
            i <= nodes.len(), ns == nodes_view(nodes@),
            d@ == distinct_lines(ns.take(i as int)),
            d@.len() <= i,
        decreases nodes.len() - i,
    {
        assert(ns.take(i + 1).drop_last() =~= ns.take(i as int));
        assert(ns.take(i + 1).last() == nodes@[i as int]@);
        if let Some(ls) = nodes[i].line_start {
            if ls > 0 && !contains_usize(&d, ls) {
                d.push(ls);
            }
        }
        i += 1;
    }
    assert(ns.take(nodes.len() as int) =~= ns);
    d
}

fn rank_exec(d: &Vec<usize>, x: usize) -> (r: i32)
    requires d@.len() < 0x7fff_ffff,
    ensures r == spec_rank(d@, x), 1 <= r <= spec_top(d@),
{
    if !contains_usize(d, x) {
        return 1;
    }
    let mut c: i32 = 0;
    let mut k: usize = 0;
    while k < d.len()
        invariant k <= d.len(), d@.len() < 0x7fff_ffff, c == count_less(d@, x, k as int), 0 <= c <= k,
        decreases d.len() - k,
    {
        if d[k] < x {
            c += 1;
        }
        k += 1;
    }
    proof {
        let w = choose|w: int| 0 <= w < d@.len() && d@[w] == x;
        lemma_count_less_lt(d@, x, w, d@.len() as int);
    }
    1 + c
}

proof fn lemma_count_less_lt(d: Seq<usize>, x: usize, w: int, k: int)
    requires 0 <= w < k <= d.len(), d[w] == x,
    ensures count_less(d, x, k) <= k - 1,
    decreases k,
{
    if k - 1 > w {
        lemma_count_less_lt(d, x, w, k - 1);
    } else {
        lemma_count_less_le(d, x, k - 1);
    }
}

proof fn lemma_count_less_le(d: Seq<usize>, x: usize, k: int)
    requires 0 <= k <= d.len(),
    ensures 0 <= count_less(d, x, k) <= k,
    decreases k,
{
    if k > 0 {
        lemma_count_less_le(d, x, k - 1);
    }
}

proof fn lemma_relax_pass_grows(lv: Seq<int>, es: Seq<EdgeView>, i: int, k: int)
    requires edges_in_range(es, lv.len() as int), 0 <= i <= k <= es.len(),
    ensures
        relax_pass(lv, es, k).0.len() == lv.len(),
        forall|j: int| 0 <= j < lv.len() ==> relax_pass(lv, es, i).0[j] <= #[trigger] relax_pass(lv, es, k).0[j],
    decreases k,
{
    lemma_relax_pass_len(lv, es, k);
    if k > i {
        lemma_relax_pass_grows(lv, es, i, k - 1);
        lemma_relax_pass_len(lv, es, k - 1);
        let e = es[k - 1];
        assert(1 <= e.from <= lv.len() && 1 <= e.to <= lv.len());
    }
}

/// Relaxation never lowers a level: every level after the passes is at
/// least the level it started from.
pub proof fn lemma_relax_grows(lv: Seq<int>, es: Seq<EdgeView>, passes: int)
    requires edges_in_range(es, lv.len() as int),
    ensures
        relax(lv, es, passes).len() == lv.len(),
        forall|j: int| 0 <= j < lv.len() ==> lv[j] <= #[trigger] relax(lv, es, passes)[j],
    decreases passes,
{
    lemma_relax_len(lv, es, passes);
    if passes > 0 {
        lemma_relax_pass_grows(lv, es, 0, es.len() as int);
        let (l, ch) = relax_pass(lv, es, es.len() as int);
        if ch {
            lemma_relax_grows(l, es, passes - 1);
        }
    }
}

/// A relaxed level above `i32::MAX` leaves the levels unfit.
proof fn lemma_relaxed_too_deep(ns: Seq<NodeView>, es: Seq<EdgeView>, start_id: usize, end_id: usize, bucket: int, t: int)
    requires
        edges_in_range(es, ns.len() as int), 0 <= t < ns.len(),
        relax(Seq::new(ns.len(), |k: int| init_level(ns[k], start_id, distinct_lines(ns), bucket)), es, 4 * ns.len() as int)[t] > 0x7fff_ffff,
    ensures !levels_fit(ns, es, start_id, end_id, bucket),
{
    let init = Seq::new(ns.len(), |k: int| init_level(ns[k], start_id, distinct_lines(ns), bucket));
    let l = relax(init, es, 4 * ns.len() as int);
    lemma_relax_len(init, es, 4 * ns.len() as int);
    lemma_seq_max(l, l.len() as int);
    let lv = spec_final_levels(ns, es, start_id, end_id, bucket);
    assert(lv[t] > 0x7fff_ffff);
}

proof fn lemma_seq_max(s: Seq<int>, k: int)
    requires 0 <= k <= s.len(),
    ensures
        forall|j: int| 0 <= j < k ==> #[trigger] s[j] <= seq_max(s, k),
        k > 0 ==> exists|j: int| 0 <= j < k && s[j] == seq_max(s, k),
        k == 0 ==> seq_max(s, k) == 0,
    decreases k,
{
    if k > 1 {
        lemma_seq_max(s, k - 1);
        if s[k - 1] > seq_max(s, k - 1) {
            assert(s[k - 1] == seq_max(s, k));
        } else {
            let j = choose|j: int| 0 <= j < k - 1 && s[j] == seq_max(s, k - 1);
            assert(s[j] == seq_max(s, k));
        }
    } else if k == 1 {
        assert(s[0] == seq_max(s, 1));
    }
}

/// Assigns each node its level (`spec_final_levels`) and marks as back
/// edges the loop back edges and every edge that does not lead downwards.
/// Returns `false`, with nodes and edges untouched, where the levels do not
/// fit in `i32` (`levels_fit`).
pub fn assign_levels_bucketed(nodes: &mut Vec<Node>, edges: &mut Vec<Edge>, start_id: usize, end_id: usize, bucket: i32) -> (fit: bool)
    requires
        graph_wf(old(nodes)@, old(edges)@, (old(nodes)@.len() + 1) as usize),
        1 <= bucket <= 3,
    ensures
        fit <==> levels_fit(nodes_view(old(nodes)@), edges_view(old(edges)@), start_id, end_id, bucket as int),
        !fit ==> final(nodes)@ == old(nodes)@ && final(edges)@ == old(edges)@,
        fit ==> ({
            let lv = spec_final_levels(nodes_view(old(nodes)@), edges_view(old(edges)@), start_id, end_id, bucket as int);
            &&& final(nodes)@.len() == old(nodes)@.len()
            &&& final(edges)@.len() == old(edges)@.len()
            &&& forall|k: int| 0 <= k < final(nodes)@.len() ==>
                (#[trigger] final(nodes)@[k])@ == NodeView { level: Some(lv[k] as i32), ..old(nodes)@[k]@ }
                && lv[k] == final(nodes)@[k].level->0
            &&& forall|k: int| 0 <= k < final(edges)@.len() ==>
                (#[trigger] final(edges)@[k])@ == EdgeView {
                    back_edge: is_next(old(edges)@[k]@.label) || lv[old(edges)@[k].to - 1] <= lv[old(edges)@[k].from - 1],
                    ..old(edges)@[k]@
                }
        }),
{
    let n = nodes.len();
    let m = edges.len();
    let ghost ns = nodes_view(nodes@);
    let ghost es = edges_view(edges@);
    let ghost nodes_in = nodes@;
    let ghost edges_in = edges@;
    if n >= 0x7fff_ffff {
        return false;
    }
    let d = distinct_lines_exec(nodes);
    let top: i32 = if d.len() == 0 { 1 } else { d.len() as i32 };
    let ghost init = Seq::new(ns.len(), |k: int| init_level(ns[k], start_id, d@, bucket as int));
    let mut level: Vec<i32> = Vec::new();
    let mut i: usize = 0;
    while i < n
        invariant
            i <= n, n == nodes@.len(), n < 0x7fff_ffff, ns == nodes_view(nodes@), d@ == distinct_lines(ns), d@.len() <= n,
            1 <= bucket <= 3, top == spec_top(d@),
            init == Seq::new(ns.len(), |k: int| init_level(ns[k], start_id, d@, bucket as int)),
            level@.len() == i,
            forall|k: int| 0 <= k < i ==> level@[k] == init[k] && 0 <= #[trigger] level@[k] <= n + 1,
        decreases n - i,
    {
        let nd = &nodes[i];
        let v: i32 = if nd.id == start_id {
            0
        } else if let Some(ls) = nd.line_start {
            let rk = rank_exec(&d, ls);
            1 + (rk - 1) / bucket
        } else {
            1 + (top - 1) / bucket + 1
        };
        assert(v == init[i as int]);
        level.push(v);
        i += 1;
    }
    assert(level@.map_values(|x: i32| x as int) =~= init);
    assert(init =~= Seq::new(ns.len(), |k: int| init_level(ns[k], start_id, distinct_lines(ns), bucket as int)));
    // Relaxation passes.
    let passes: u64 = (n as u64) * 4;
    proof {
        assert forall|j: int| 0 <= j < es.len() implies 1 <= (#[trigger] es[j]).from <= n && 1 <= es[j].to <= n by {
            assert(edges@[j]@ == es[j]);
        }
    }
    let mut p: u64 = 0;
    let mut done = false;
    while p < passes && !done
        invariant
            p <= passes, passes == 4 * n, n == ns.len(), m == es.len(), n < 0x7fff_ffff,
            nodes@ == nodes_in, edges@ == edges_in, ns == nodes_view(nodes_in), es == edges_view(edges_in), edges@.len() == m,
            edges_in_range(es, n as int),
            init == Seq::new(ns.len(), |k: int| init_level(ns[k], start_id, distinct_lines(ns), bucket as int)),
            level@.len() == n,
            !done ==> relax(init, es, 4 * n) == relax(level@.map_values(|x: i32| x as int), es, passes - p),
            done ==> relax(init, es, 4 * n) == level@.map_values(|x: i32| x as int),
        decreases passes - p,
    {
        let ghost lv0 = level@.map_values(|x: i32| x as int);
        let mut changed = false;
        let mut k: usize = 0;
        while k < m
            invariant
                k <= m, m == es.len(), n == level@.len(), n == ns.len(), lv0.len() == n,
                nodes@ == nodes_in, edges@ == edges_in, ns == nodes_view(nodes_in), es == edges_view(edges_in), edges@.len() == m,
                edges_in_range(es, n as int),
                init == Seq::new(ns.len(), |k: int| init_level(ns[k], start_id, distinct_lines(ns), bucket as int)),
                p < passes, relax(init, es, 4 * n) == relax(lv0, es, passes - p),
                (level@.map_values(|x: i32| x as int), changed) == relax_pass(lv0, es, k as int),
            decreases m - k,
        {
            let e = &edges[k];
            assert(e@ == es[k as int]);
            if !label_is(&e.label, "next") {
                let a = level[e.from - 1];
                let b = level[e.to - 1];
                if b <= a {
                    if a == 0x7fff_ffff {
                        proof {
                            let t = e.to - 1;
                            assert(relax_pass(lv0, es, k + 1).0[t] == 0x8000_0000);
                            lemma_relax_pass_grows(lv0, es, k + 1, m as int);
                            let (l1, ch1) = relax_pass(lv0, es, m as int);
                            if ch1 {
                                lemma_relax_grows(l1, es, passes - p - 1);
                            }
                            assert(relax(lv0, es, passes - p)[t] >= 0x8000_0000);
                            lemma_relaxed_too_deep(ns, es, start_id, end_id, bucket as int, t);
                        }
                        return false;
                    }
                    let ghost before = level@.map_values(|x: i32| x as int);
                    level.set(e.to - 1, a + 1);
                    assert(level@.map_values(|x: i32| x as int) =~= before.update(e.to - 1, a + 1));
                    changed = true;
                }
            }
            k += 1;
        }
        if !changed {
            done = true;
        } else {
            proof {
                assert(relax(lv0, es, passes - p) == relax(level@.map_values(|x: i32| x as int), es, passes - p - 1));
            }
        }
        p += 1;
    }
    let ghost lfin = level@.map_values(|x: i32| x as int);
    proof {
        if !done {
            assert(p == passes);
        }
        assert(lfin == relax(init, es, 4 * n));
    }
    // Deepest level, and the end node one below it.
    let mut mx: i32 = 0;
    let mut k: usize = 0;
    while k < n
        invariant
            k <= n, n == level@.len(), lfin == level@.map_values(|x: i32| x as int),
            mx == seq_max(lfin, k as int),
        decreases n - k,
    {
        if k == 0 || level[k] > mx {
            mx = level[k];
        }
        k += 1;
    }
    proof {
        lemma_seq_max(lfin, n as int);
    }
    let ghost lv = spec_final_levels(ns, es, start_id, end_id, bucket as int);
    if 1 <= end_id && end_id <= n {
        if mx == 0x7fff_ffff {
            assert(lv[end_id - 1] > 0x7fff_ffff);
            return false;
        }
        level.set(end_id - 1, mx + 1);
    }
    assert(level@.map_values(|x: i32| x as int) =~= lv);
    assert(levels_fit(ns, es, start_id, end_id, bucket as int)) by {
        assert forall|k: int| 0 <= k < ns.len() implies #[trigger] lv[k] <= 0x7fff_ffff by {
            assert(lv[k] == level@[k] as int);
        }
    }
    // Store the levels and mark back edges.
    let ghost nodes0 = nodes@;
    let mut k: usize = 0;
    while k < n
        invariant
            k <= n, n == nodes@.len(), nodes0.len() == n, n == level@.len(), lv == level@.map_values(|x: i32| x as int),
            forall|j: int| 0 <= j < n ==> (#[trigger] nodes@[j])@ == (if j < k {
                NodeView { level: Some(lv[j] as i32), ..nodes0[j]@ } } else { nodes0[j]@ }),
        decreases n - k,
    {
        let lvl = level[k];
        let mut nd = nodes.remove(k);
        nd.level = Some(lvl);
        nodes.insert(k, nd);
        k += 1;
    }
    let ghost edges0 = edges@;
    let mut k: usize = 0;
    while k < m
        invariant
            k <= m, m == edges@.len(), edges0.len() == m, n == level@.len(), lv == level@.map_values(|x: i32| x as int),
            es == edges_view(edges0),
            forall|j: int| 0 <= j < es.len() ==> 1 <= (#[trigger] es[j]).from <= n && 1 <= es[j].to <= n,
            forall|j: int| 0 <= j < m ==> (#[trigger] edges@[j])@ == (if j < k {
                EdgeView { back_edge: is_next(edges0[j]@.label) || lv[edges0[j].to - 1] <= lv[edges0[j].from - 1], ..edges0[j]@ }
            } else { edges0[j]@ }),
        decreases m - k,
    {
        assert(edges@[k as int]@ == es[k as int]);
        let mut e = edges.remove(k);
        let a = level[e.from - 1];
        let b = level[e.to - 1];
        e.back_edge = label_is(&e.label, "next") || b <= a;
        edges.insert(k, e);
        k += 1;
    }
    true
}

/// The nodes with the levels `lv` stored.
pub open spec fn levelled_nodes(ns: Seq<NodeView>, lv: Seq<int>) -> Seq<NodeView> {
    Seq::new(ns.len(), |k: int| NodeView { level: Some(lv[k] as i32), ..ns[k] })
}

/// The edges marked as back edges where they are a loop's back edge or do
/// not lead to a deeper level.
pub open spec fn levelled_edges(es: Seq<EdgeView>, lv: Seq<int>) -> Seq<EdgeView> {
    Seq::new(es.len(), |k: int| EdgeView { back_edge: is_next(es[k].label) || lv[es[k].to - 1] <= lv[es[k].from - 1], ..es[k] })
}

/// A finished flow graph: its nodes and edges, with the ids of the start
/// and end nodes.
#[derive(Debug)]
pub struct FlowGraph {
    pub nodes: Vec<Node>,
    pub edges: Vec<Edge>,
    pub start: usize,
    pub end: usize,
}

/// Why a source parser could not produce a graph.
#[derive(Debug)]
pub enum ExtractError {
    /// The requested function is not defined in the source.
    FunctionNotFound(String),
    /// The function's body could not be delimited.
    FunctionBodyNotFound(String),
    /// The graph's levels do not fit in `i32` (`levels_fit`).
    GraphTooLarge,
}

/// Assigns levels and back-edge flags to a finished graph, unless its levels
/// do not fit in `i32` (`levels_fit`).
pub fn finish_graph(nodes: Vec<Node>, edges: Vec<Edge>, start: usize, end: usize, bucket: i32) -> (r: Result<FlowGraph, ExtractError>)
    requires
        graph_wf(nodes@, edges@, (nodes@.len() + 1) as usize),
        1 <= bucket <= 3,
    ensures
        r is Ok <==> levels_fit(nodes_view(nodes@), edges_view(edges@), start, end, bucket as int),
        r is Err ==> r->Err_0 is GraphTooLarge,
        r is Ok ==> ({
            let g = r->Ok_0;
            let lv = spec_final_levels(nodes_view(nodes@), edges_view(edges@), start, end, bucket as int);
            &&& nodes_view(g.nodes@) == levelled_nodes(nodes_view(nodes@), lv)
            &&& forall|k: int| 0 <= k < g.nodes@.len() ==> lv[k] == (#[trigger] g.nodes@[k]).level->0
            &&& edges_view(g.edges@) == levelled_edges(edges_view(edges@), lv)
            &&& g.start == start && g.end == end
            &&& g.nodes@.len() == nodes@.len()
            &&& graph_wf(g.nodes@, g.edges@, (g.nodes@.len() + 1) as usize)
        }),
{
    let mut nodes = nodes;
    let mut edges = edges;
    let ghost ns = nodes_view(nodes@);
    let ghost es = edges_view(edges@);
    let ghost n0 = nodes@;
    let ghost e0 = edges@;
    if !assign_levels_bucketed(&mut nodes, &mut edges, start, end, bucket) {
        return Err(ExtractError::GraphTooLarge);
    }
    let ghost lv = spec_final_levels(ns, es, start, end, bucket as int);
    assert(nodes_view(nodes@) =~= levelled_nodes(ns, lv)) by {
        assert forall|k: int| 0 <= k < nodes@.len() implies nodes_view(nodes@)[k] == levelled_nodes(ns, lv)[k] by {
            assert(ns[k] == n0[k]@);
        }
    }
    assert(edges_view(edges@) =~= levelled_edges(es, lv)) by {
        assert forall|k: int| 0 <= k < edges@.len() implies edges_view(edges@)[k] == levelled_edges(es, lv)[k] by {
            assert(es[k] == e0[k]@);
        }
    }
    assert(graph_wf(nodes@, edges@, (nodes@.len() + 1) as usize)) by {
        assert forall|k: int| 0 <= k < nodes@.len() implies (#[trigger] nodes@[k]).id == k + 1 by {
            assert(nodes_view(nodes@)[k] == nodes@[k]@);
            assert(ns[k] == n0[k]@);
        }
        assert forall|k: int| 0 <= k < edges@.len() implies
            1 <= (#[trigger] edges@[k]).from < nodes@.len() + 1 && 1 <= edges@[k].to < nodes@.len() + 1 by {
            assert(edges_view(edges@)[k] == edges@[k]@);
            assert(es[k] == e0[k]@);
        }
    }
    Ok(FlowGraph { nodes, edges, start, end })
}

/// The graph under construction, as plain values.
pub ghost struct GState {
    pub nodes: Seq<NodeView>,
    pub edges: Seq<EdgeView>,
    pub next_id: int,
}

pub type ExitV = (usize, Option<Seq<char>>);



/// Connecting exits to `dst` without a default label, on plain values.
pub open spec fn g_connect(g: GState, inc: Seq<ExitV>, dst: usize) -> GState {
    GState { nodes: g.nodes, edges: g.edges + spec_connect_edges(inc, dst, None), next_id: g.next_id }
}

/// The `next` edges from the exits of a loop body back to the loop node.
pub open spec fn next_edges(exits: Seq<ExitV>, lid: usize) -> Seq<EdgeView> {
    exits.map_values(|ex: ExitV| EdgeView { from: ex.0, to: lid, label: Some("next"@), back_edge: false })
}

/// Every exit of `xs` is also an exit of `ys`.
pub open spec fn exits_among(xs: Seq<ExitV>, ys: Seq<ExitV>) -> bool {
    forall|i: int| 0 <= i < xs.len() ==> ys.contains(#[trigger] xs[i])
}

pub proof fn lemma_among_concat(xs: Seq<ExitV>, ys: Seq<ExitV>)
    ensures exits_among(xs, xs + ys), exits_among(ys, xs + ys),
{
    assert forall|i: int| 0 <= i < xs.len() implies (xs + ys).contains(#[trigger] xs[i]) by {
        assert((xs + ys)[i] == xs[i]);
    }
    assert forall|i: int| 0 <= i < ys.len() implies (xs + ys).contains(#[trigger] ys[i]) by {
        assert((xs + ys)[xs.len() + i] == ys[i]);
    }
}

pub proof fn lemma_among_trans(xs: Seq<ExitV>, ys: Seq<ExitV>, zs: Seq<ExitV>)
    requires exits_among(xs, ys), exits_among(ys, zs),
    ensures exits_among(xs, zs),
{
    assert forall|i: int| 0 <= i < xs.len() implies zs.contains(#[trigger] xs[i]) by {
        assert(ys.contains(xs[i]));
        let w = choose|w: int| 0 <= w < ys.len() && ys[w] == xs[i];
        assert(zs.contains(ys[w]));
    }
}

/// The `next` edges of a loop body: one per exit, each from that exit back
/// to the loop node.
pub proof fn lemma_next_edges_each(pre: Seq<EdgeView>, ex: Seq<ExitV>, lid: usize)
    ensures forall|i: int| 0 <= i < ex.len() ==>
        (pre + next_edges(ex, lid)).contains(EdgeView { from: (#[trigger] ex[i]).0, to: lid, label: Some("next"@), back_edge: false }),
{
    assert forall|i: int| 0 <= i < ex.len() implies
        (pre + next_edges(ex, lid)).contains(EdgeView { from: (#[trigger] ex[i]).0, to: lid, label: Some("next"@), back_edge: false }) by {
        assert((pre + next_edges(ex, lid))[pre.len() + i] == EdgeView { from: ex[i].0, to: lid, label: Some("next"@), back_edge: false });
    }
}

pub open spec fn one_exit(id: usize, label: Seq<char>) -> Seq<ExitV> {
    seq![(id, Some(label))]
}

pub open spec fn bare_exit(id: usize) -> Seq<ExitV> {
    seq![(id, None)]
}

pub fn exit_with(id: usize, label: &str) -> (v: Vec<Exit>)
    ensures exits_view(v@) == one_exit(id, label@),
{
    let mut v: Vec<Exit> = Vec::new();
    v.push(Exit { node_id: id, label: Some(String::from_str(label)) });
    assert(exits_view(v@) =~= one_exit(id, label@));
    v
}

pub fn exit_bare(id: usize) -> (v: Vec<Exit>)
    ensures exits_view(v@) == bare_exit(id),
{
    let mut v: Vec<Exit> = Vec::new();
    v.push(Exit { node_id: id, label: None });
    assert(exits_view(v@) =~= bare_exit(id));
    v
}

pub fn exit_owned(id: usize, label: &Vec<char>) -> (v: Vec<Exit>)
    ensures exits_view(v@) == one_exit(id, label@),
{
    let mut v: Vec<Exit> = Vec::new();
    v.push(Exit { node_id: id, label: Some(crate::text::string_of(label)) });
    assert(exits_view(v@) =~= one_exit(id, label@));
    v
}

/// Moves all exits of `b` to the end of `a`.
pub fn append_exits(a: &mut Vec<Exit>, b: Vec<Exit>)
    ensures exits_view(final(a)@) == exits_view(old(a)@) + exits_view(b@),
{
    let mut b = b;
    let ghost a0 = a@;
    let ghost b0 = b@;
    a.append(&mut b);
    assert(exits_view(a@) =~= exits_view(a0) + exits_view(b0));
}

pub proof fn lemma_exits_ok_mono(x: Seq<ExitV>, n1: usize, n2: usize)
    requires exits_ok(x, n1), n1 <= n2,
    ensures exits_ok(x, n2),
{
}

pub proof fn lemma_exits_ok_concat(x: Seq<ExitV>, y: Seq<ExitV>, n: usize)
    requires exits_ok(x, n), exits_ok(y, n),
    ensures exits_ok(x + y, n),
{
    assert forall|k: int| 0 <= k < (x + y).len() implies 1 <= (#[trigger] (x + y)[k]).0 < n by {
        if k < x.len() { assert((x + y)[k] == x[k]); } else { assert((x + y)[k] == y[k - x.len()]); }
    }
}


/// Every edge of `es` joins two of the `n` nodes.
pub open spec fn edges_in_range(es: Seq<EdgeView>, n: int) -> bool {
    forall|k: int| 0 <= k < es.len() ==> 1 <= (#[trigger] es[k]).from <= n && 1 <= es[k].to <= n
}

proof fn lemma_relax_pass_len(lv: Seq<int>, es: Seq<EdgeView>, k: int)
    requires edges_in_range(es, lv.len() as int), k <= es.len(),
    ensures relax_pass(lv, es, k).0.len() == lv.len(),
    decreases k,
{
    if k > 0 {
        lemma_relax_pass_len(lv, es, k - 1);
    }
}

proof fn lemma_relax_len(lv: Seq<int>, es: Seq<EdgeView>, passes: int)
    requires edges_in_range(es, lv.len() as int),
    ensures relax(lv, es, passes).len() == lv.len(),
    decreases passes,
{
    if passes > 0 {
        lemma_relax_pass_len(lv, es, es.len() as int);
        let (l, ch) = relax_pass(lv, es, es.len() as int);
        if ch {
            lemma_relax_len(l, es, passes - 1);
        }
    }
}

/// The End node lies below every other node: its level is greater than the
/// level of any other node of a graph whose edges join its nodes.
pub proof fn lemma_end_level_deepest(ns: Seq<NodeView>, es: Seq<EdgeView>, start_id: usize, end_id: usize, bucket: int)
    requires 1 <= end_id <= ns.len(), edges_in_range(es, ns.len() as int),
    ensures ({
        let lv = spec_final_levels(ns, es, start_id, end_id, bucket);
        &&& lv.len() == ns.len()
        &&& forall|k: int| 0 <= k < ns.len() && k != end_id - 1 ==> #[trigger] lv[k] < lv[end_id - 1]
    }),
{
    let d = distinct_lines(ns);
    let init = Seq::new(ns.len(), |k: int| init_level(ns[k], start_id, d, bucket));
    lemma_relax_len(init, es, 4 * ns.len() as int);
    let l = relax(init, es, 4 * ns.len() as int);
    lemma_seq_max(l, l.len() as int);
    let lv = spec_final_levels(ns, es, start_id, end_id, bucket);
    assert forall|k: int| 0 <= k < ns.len() && k != end_id - 1 implies #[trigger] lv[k] < lv[end_id - 1] by {
        assert(lv[k] == l[k]);
    }
}

/// `h` extends `g`: the old nodes and edges stay in front, ids only grow,
/// and every new edge leads to a node added after `g`.
pub open spec fn grows(g: GState, h: GState) -> bool {
    &&& g.nodes.len() <= h.nodes.len() && h.nodes.take(g.nodes.len() as int) == g.nodes
    &&& g.edges.len() <= h.edges.len() && h.edges.take(g.edges.len() as int) == g.edges
    &&& 0 <= g.next_id <= h.next_id
    &&& h.next_id <= usize::MAX + 1 ==>
            forall|j: int| g.edges.len() <= j < h.edges.len() ==> (#[trigger] h.edges[j]).to >= g.next_id
}

/// Connecting exits to a node adds, for each exit, an edge from it to the
/// node that carries the exit's label.
pub proof fn lemma_connect_has(g: GState, cur: Seq<ExitV>, id: usize)
    ensures forall|i: int| 0 <= i < cur.len() ==>
        g_connect(g, cur, id).edges.contains(EdgeView { from: (#[trigger] cur[i]).0, to: id, label: cur[i].1, back_edge: false }),
{
    assert forall|i: int| 0 <= i < cur.len() implies
        g_connect(g, cur, id).edges.contains(EdgeView { from: (#[trigger] cur[i]).0, to: id, label: cur[i].1, back_edge: false }) by {
        let h = g_connect(g, cur, id);
        assert(h.edges[g.edges.len() + i] == spec_connect_edges(cur, id, None)[i]);
        assert(spec_connect_edges(cur, id, None)[i] == EdgeView { from: cur[i].0, to: id, label: cur[i].1, back_edge: false });
    }
}

/// Appending edges keeps the edges already there.
pub proof fn lemma_append_keeps_edge(es: Seq<EdgeView>, more: Seq<EdgeView>, e: EdgeView)
    requires es.contains(e),
    ensures (es + more).contains(e),
{
    let w = choose|w: int| 0 <= w < es.len() && es[w] == e;
    assert((es + more)[w] == e);
}

/// What a graph holds stays when it grows.
pub proof fn lemma_grows_keeps_edge(g: GState, h: GState, e: EdgeView)
    requires grows(g, h), g.edges.contains(e),
    ensures h.edges.contains(e),
{
    let w = choose|w: int| 0 <= w < g.edges.len() && g.edges[w] == e;
    assert(h.edges.take(g.edges.len() as int)[w] == e);
}

pub proof fn lemma_grows_trans(a: GState, b: GState, c: GState)
    requires grows(a, b), grows(b, c),
    ensures grows(a, c),
{
    assert(c.nodes.take(a.nodes.len() as int) =~= b.nodes.take(a.nodes.len() as int)) by {
        assert forall|i: int| 0 <= i < a.nodes.len() implies c.nodes[i] == b.nodes[i] by {
            assert(c.nodes.take(b.nodes.len() as int)[i] == b.nodes[i]);
        }
    }
    assert(c.edges.take(a.edges.len() as int) =~= b.edges.take(a.edges.len() as int)) by {
        assert forall|i: int| 0 <= i < a.edges.len() implies c.edges[i] == b.edges[i] by {
            assert(c.edges.take(b.edges.len() as int)[i] == b.edges[i]);
        }
    }
    assert forall|j: int| c.next_id <= usize::MAX + 1 && a.edges.len() <= j < c.edges.len() implies (#[trigger] c.edges[j]).to >= a.next_id by {
        if j < b.edges.len() {
            assert(c.edges.take(b.edges.len() as int)[j] == b.edges[j]);
            assert(b.edges[j].to >= a.next_id);
        }
    }
}

pub proof fn lemma_grows_refl(g: GState)
    requires 0 <= g.next_id,
    ensures grows(g, g),
{
    assert(g.nodes.take(g.nodes.len() as int) =~= g.nodes);
    assert(g.edges.take(g.edges.len() as int) =~= g.edges);
}

/// The loop-back `next` edges to `lid`, a node added after `g`, keep the
/// graph growing from `g`.
pub proof fn lemma_next_edges_grows(g: GState, b: GState, ex: Seq<ExitV>, lid: usize)
    requires grows(g, b), g.next_id < b.next_id, lid as int == g.next_id,
    ensures grows(g, GState { edges: b.edges + next_edges(ex, lid), ..b }),
{
    let r = GState { edges: b.edges + next_edges(ex, lid), ..b };
    assert forall|j: int| r.next_id <= usize::MAX + 1 && g.edges.len() <= j < r.edges.len() implies (#[trigger] r.edges[j]).to >= g.next_id by {
        if j < b.edges.len() {
            assert(r.edges[j] == b.edges[j]);
        } else {
            assert(r.edges[j] == next_edges(ex, lid)[j - b.edges.len()]);
        }
    }
    assert(r.edges.take(g.edges.len() as int) =~= g.edges) by {
        assert forall|i: int| 0 <= i < g.edges.len() implies r.edges[i] == g.edges[i] by {
            assert(b.edges.take(g.edges.len() as int)[i] == g.edges[i]);
        }
    }
}

/// `id` is the id of one of the exits `s`.
pub open spec fn ids_in(s: Seq<ExitV>, id: usize) -> bool {
    exists|i: int| 0 <= i < s.len() && s[i].0 == id
}

/// `id` is a node added between `g` and `h`, or one of the exits `s`.
pub open spec fn in_or_new(g: GState, h: GState, s: Seq<ExitV>, id: usize) -> bool {
    (g.next_id <= id && id < h.next_id) || ids_in(s, id)
}

/// Every edge added between `g` and `h` leaves a new node or one of `s`.
pub open spec fn walk_src(g: GState, h: GState, s: Seq<ExitV>) -> bool {
    forall|j: int| g.edges.len() <= j < h.edges.len() ==> in_or_new(g, h, s, (#[trigger] h.edges[j]).from)
}

/// Every exit in `ex` is a new node or one of `s`.
pub open spec fn walk_ex(g: GState, h: GState, s: Seq<ExitV>, ex: Seq<ExitV>) -> bool {
    forall|k: int| 0 <= k < ex.len() ==> in_or_new(g, h, s, (#[trigger] ex[k]).0)
}

/// A walk from `g` to `h` entered by the exits `s` and leaving by `ex`:
/// new edges leave only the exits that flowed in or the new nodes, and the
/// exits are among them (while ids stay within `usize`).
pub open spec fn walk_rep(g: GState, h: GState, s: Seq<ExitV>, ex: Seq<ExitV>) -> bool {
    h.next_id <= usize::MAX + 1 ==> walk_src(g, h, s) && walk_ex(g, h, s, ex)
}

pub proof fn lemma_ex_lift(g: GState, b: GState, c: GState, s: Seq<ExitV>, ex: Seq<ExitV>)
    requires walk_ex(g, b, s, ex), b.next_id <= c.next_id,
    ensures walk_ex(g, c, s, ex),
{
    assert forall|k: int| 0 <= k < ex.len() implies in_or_new(g, c, s, (#[trigger] ex[k]).0) by {
        assert(in_or_new(g, b, s, ex[k].0));
    }
}

pub proof fn lemma_ex_concat(g: GState, h: GState, s: Seq<ExitV>, a: Seq<ExitV>, b: Seq<ExitV>)
    requires walk_ex(g, h, s, a), walk_ex(g, h, s, b),
    ensures walk_ex(g, h, s, a + b),
{
    assert forall|k: int| 0 <= k < (a + b).len() implies in_or_new(g, h, s, (#[trigger] (a + b)[k]).0) by {
        if k < a.len() { assert((a + b)[k] == a[k]); } else { assert((a + b)[k] == b[k - a.len()]); }
    }
}

pub proof fn lemma_ex_single(g: GState, h: GState, s: Seq<ExitV>, x: ExitV)
    requires in_or_new(g, h, s, x.0),
    ensures walk_ex(g, h, s, seq![x]),
{
    assert forall|k: int| 0 <= k < seq![x].len() implies in_or_new(g, h, s, (#[trigger] seq![x][k]).0) by {
        assert(seq![x][k] == x);
    }
}

/// Exits that are among `s` are in place.
pub proof fn lemma_ex_sub(g: GState, h: GState, s: Seq<ExitV>, ex: Seq<ExitV>)
    requires forall|k: int| 0 <= k < ex.len() ==> ids_in(s, (#[trigger] ex[k]).0),
    ensures walk_ex(g, h, s, ex),
{
    assert forall|k: int| 0 <= k < ex.len() implies in_or_new(g, h, s, (#[trigger] ex[k]).0) by {
        assert(ids_in(s, ex[k].0));
    }
}

/// Exits `t` are among `s` or new: then ids of `t` stay in place.
pub proof fn lemma_ids_from(g: GState, b: GState, c: GState, s: Seq<ExitV>, t: Seq<ExitV>, id: usize)
    requires walk_ex(g, b, s, t), g.next_id <= b.next_id <= c.next_id, in_or_new(b, c, t, id),
    ensures in_or_new(g, c, s, id),
{
    if !(b.next_id <= id && id < c.next_id) {
        let i = choose|i: int| 0 <= i < t.len() && t[i].0 == id;
        assert(in_or_new(g, b, s, t[i].0));
    }
}

/// A walk followed by a walk entered by exits `t` that the first left in
/// place is a walk.
pub proof fn lemma_rep_seq(g: GState, b: GState, c: GState, s: Seq<ExitV>, t: Seq<ExitV>, x: Seq<ExitV>)
    requires
        grows(g, b), grows(b, c),
        b.next_id <= usize::MAX + 1 ==> walk_src(g, b, s) && walk_ex(g, b, s, t),
        walk_rep(b, c, t, x),
    ensures walk_rep(g, c, s, x),
{
    if c.next_id <= usize::MAX + 1 {
        assert forall|j: int| g.edges.len() <= j < c.edges.len() implies in_or_new(g, c, s, (#[trigger] c.edges[j]).from) by {
            if j < b.edges.len() {
                assert(c.edges.take(b.edges.len() as int)[j] == c.edges[j]);
                assert(in_or_new(g, b, s, b.edges[j].from));
            } else {
                lemma_ids_from(g, b, c, s, t, c.edges[j].from);
            }
        }
        assert forall|k: int| 0 <= k < x.len() implies in_or_new(g, c, s, (#[trigger] x[k]).0) by {
            lemma_ids_from(g, b, c, s, t, x[k].0);
        }
    }
}

/// Edges from the exits `cur` keep the walk's edges in place.
pub proof fn lemma_connect_src(g: GState, h: GState, cur: Seq<ExitV>, dst: usize)
    requires h.edges == g.edges, walk_ex(g, h, cur, cur),
    ensures forall|j: int| g.edges.len() <= j < g_connect(h, cur, dst).edges.len()
        ==> in_or_new(g, h, cur, (#[trigger] g_connect(h, cur, dst).edges[j]).from),
{
    let r = g_connect(h, cur, dst);
    assert forall|j: int| g.edges.len() <= j < r.edges.len() implies in_or_new(g, h, cur, (#[trigger] r.edges[j]).from) by {
        let k = j - g.edges.len();
        assert(r.edges[j] == spec_connect_edges(cur, dst, None)[k]);
        assert(in_or_new(g, h, cur, cur[k].0));
    }
}

/// The exits that flowed in are in place.
pub proof fn lemma_ex_refl(g: GState, h: GState, s: Seq<ExitV>)
    ensures walk_ex(g, h, s, s),
{
    assert forall|k: int| 0 <= k < s.len() implies in_or_new(g, h, s, (#[trigger] s[k]).0) by {
        assert(ids_in(s, s[k].0));
    }
}

/// Loop-back edges from exits that are in place keep the walk in place.
pub proof fn lemma_next_src(g: GState, b: GState, s: Seq<ExitV>, ex: Seq<ExitV>, lid: usize)
    requires walk_src(g, b, s), walk_ex(g, b, s, ex),
    ensures walk_src(g, GState { edges: b.edges + next_edges(ex, lid), ..b }, s),
{
    let r = GState { edges: b.edges + next_edges(ex, lid), ..b };
    assert forall|j: int| g.edges.len() <= j < r.edges.len() implies in_or_new(g, r, s, (#[trigger] r.edges[j]).from) by {
        if j < b.edges.len() {
            assert(r.edges[j] == b.edges[j]);
            assert(in_or_new(g, b, s, b.edges[j].from));
        } else {
            let k = j - b.edges.len();
            assert(r.edges[j] == next_edges(ex, lid)[k]);
            assert(in_or_new(g, b, s, ex[k].0));
        }
    }
}

/// Every exit in `a` has the id of one in `b`.
pub open spec fn ids_sub(a: Seq<ExitV>, b: Seq<ExitV>) -> bool {
    forall|k: int| 0 <= k < a.len() ==> ids_in(b, (#[trigger] a[k]).0)
}

pub proof fn lemma_ids_sub_left(a: Seq<ExitV>, b: Seq<ExitV>)
    ensures ids_sub(a, a + b),
{
    assert forall|k: int| 0 <= k < a.len() implies ids_in(a + b, (#[trigger] a[k]).0) by {
        assert((a + b)[k] == a[k]);
    }
}

pub proof fn lemma_ids_sub_right(a: Seq<ExitV>, b: Seq<ExitV>)
    ensures ids_sub(b, a + b),
{
    assert forall|k: int| 0 <= k < b.len() implies ids_in(a + b, (#[trigger] b[k]).0) by {
        assert((a + b)[a.len() + k] == b[k]);
    }
}

pub proof fn lemma_ids_sub_cat(a: Seq<ExitV>, b: Seq<ExitV>, c: Seq<ExitV>)
    requires ids_sub(a, c), ids_sub(b, c),
    ensures ids_sub(a + b, c),
{
    assert forall|k: int| 0 <= k < (a + b).len() implies ids_in(c, (#[trigger] (a + b)[k]).0) by {
        if k < a.len() { assert((a + b)[k] == a[k]); } else { assert((a + b)[k] == b[k - a.len()]); }
    }
}

pub proof fn lemma_ids_sub_single(x: ExitV, c: Seq<ExitV>)
    requires ids_in(c, x.0),
    ensures ids_sub(seq![x], c),
{
    assert forall|k: int| 0 <= k < seq![x].len() implies ids_in(c, (#[trigger] seq![x][k]).0) by {
        assert(seq![x][k] == x);
    }
}

pub proof fn lemma_ids_in_sub(a: Seq<ExitV>, b: Seq<ExitV>, id: usize)
    requires ids_sub(a, b), ids_in(a, id),
    ensures ids_in(b, id),
{
    let i = choose|i: int| 0 <= i < a.len() && a[i].0 == id;
    assert(ids_in(b, a[i].0));
}

/// A walk entered by exits `s` is also one entered by any `s2` naming the
/// same ids and more.
pub proof fn lemma_rep_widen(g: GState, h: GState, s: Seq<ExitV>, s2: Seq<ExitV>, ex: Seq<ExitV>)
    requires walk_rep(g, h, s, ex), ids_sub(s, s2),
    ensures walk_rep(g, h, s2, ex),
{
    if h.next_id <= usize::MAX + 1 {
        assert forall|j: int| g.edges.len() <= j < h.edges.len() implies in_or_new(g, h, s2, (#[trigger] h.edges[j]).from) by {
            if ids_in(s, h.edges[j].from) { lemma_ids_in_sub(s, s2, h.edges[j].from); }
        }
        assert forall|k: int| 0 <= k < ex.len() implies in_or_new(g, h, s2, (#[trigger] ex[k]).0) by {
            if ids_in(s, ex[k].0) { lemma_ids_in_sub(s, s2, ex[k].0); }
        }
    }
}

/// Exits naming ids of `s` are in place.
pub proof fn lemma_ex_of_sub(g: GState, h: GState, s: Seq<ExitV>, a: Seq<ExitV>)
    requires ids_sub(a, s),
    ensures walk_ex(g, h, s, a),
{
    assert forall|k: int| 0 <= k < a.len() implies in_or_new(g, h, s, (#[trigger] a[k]).0) by {
        assert(ids_in(s, a[k].0));
    }
}

} // verus!
