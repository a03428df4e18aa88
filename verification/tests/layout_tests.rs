use codeflow::geometry::Shape;
use codeflow::labels::{branch_anchors, place_label, BranchAnchor};
use codeflow::layout::{
    canvas_size, distinct_sorted, index_in, level_stats, place_nodes, shift_summary, spread_levels, LevelStats,
    RenderEdge,
};
use codeflow::passes::route_edges;
use codeflow::path::EdgePath;
use codeflow::plan::{edge_order, out_positions, plan_edges, split_offsets, str_lt};

fn redge(from: usize, to: usize, label: Option<&str>, back: Option<bool>) -> RenderEdge {
    RenderEdge { from, to, label: label.map(|s| s.to_string()), back_edge: back }
}

fn names(v: &[&str]) -> Vec<String> {
    v.iter().map(|s| s.to_string()).collect()
}

#[test]
fn distinct_values_in_order() {
    assert_eq!(distinct_sorted(&[3, 1, 3, -2]), vec![-2, 1, 3]);
    assert_eq!(distinct_sorted(&[]), Vec::<i32>::new());
    assert_eq!(index_in(&[-2, 1, 3], 3), 2);
}

#[test]
fn nodes_placed_by_lane_and_level() {
    let rects = place_nodes(
        &[0, 0, 1],
        &[0, 1, 1],
        &[Shape::Terminator, Shape::Process, Shape::Decision],
        &[0, 1],
        &[0, 1],
        &[0, 0],
    )
    .unwrap();
    assert_eq!(rects, vec![(690, 214, 1110, 306), (490, 474, 1310, 606), (1860, 450, 2540, 630)]);
}

#[test]
fn stacked_nodes_push_later_levels_down() {
    let rects =
        place_nodes(&[0, 0, 0], &[0, 0, 1], &[Shape::Process, Shape::Process, Shape::Process], &[0], &[0, 1], &[0, 0])
            .unwrap();
    assert_eq!(rects, vec![(490, 194, 1310, 326), (490, 454, 1310, 586), (490, 734, 1310, 866)]);
    // a crowding bump moves every later level
    let bumped = place_nodes(&[0, 0], &[0, 1], &[Shape::Process, Shape::Process], &[0], &[0, 1], &[70, 0]).unwrap();
    assert_eq!(bumped[1], (490, 544, 1310, 676));
}

#[test]
fn placement_refuses_an_oversized_layout() {
    // 1100 nodes stacked in one cell reach past the layout's working box
    let n = 1100;
    let lanes = vec![0; n];
    let levels = vec![0; n];
    let shapes = vec![Shape::Process; n];
    assert_eq!(place_nodes(&lanes, &levels, &shapes, &[0], &[0], &[0]), None);
    assert!(place_nodes(&lanes[..1000], &levels[..1000], &shapes[..1000], &[0], &[0], &[0]).is_some());
}

#[test]
fn level_crowding_statistics() {
    let edges = vec![redge(0, 1, None, None), redge(0, 2, None, None), redge(1, 0, None, Some(true))];
    let stats = level_stats(&[0, 1, 1], &[0, 1], &edges);
    assert_eq!(
        stats,
        vec![
            LevelStats { nodes: 1, edge_touch: 3, cross: 0, minlen: 0 },
            LevelStats { nodes: 2, edge_touch: 3, cross: 0, minlen: 2 },
        ]
    );
    let long = vec![redge(0, 1, None, None)];
    let s2 = level_stats(&[0, 3, 1, 2], &[0, 1, 2, 3], &long);
    assert_eq!(s2[1].cross, 1);
    assert_eq!(s2[2].cross, 1);
    assert_eq!(s2[3].cross, 1);
    assert_eq!(s2[0].cross, 0);
}

#[test]
fn levels_spread_until_gaps_hold() {
    let base = vec![(690, 214, 1110, 306), (490, 474, 1310, 606), (1860, 450, 2540, 630)];
    let (rects, passes, applied) = spread_levels(base.clone(), &[0, 1, 1], &[0, 1]).unwrap();
    assert_eq!(rects, vec![(690, 214, 1110, 306), (490, 486, 1310, 618), (1860, 462, 2540, 642)]);
    assert_eq!(passes, 1);
    assert_eq!(applied, 12);
    assert_eq!(shift_summary(&base, &rects), (2, 24, 12));
    // once settled, the overlapping columns keep the minimum gap
    assert!(rects[1].1 - rects[0].3 >= 180);
    // already spread: nothing moves
    let (same, p2, a2) = spread_levels(rects.clone(), &[0, 1, 1], &[0, 1]).unwrap();
    assert_eq!(same, rects);
    assert_eq!((p2, a2), (0, 0));
}

#[test]
fn canvas_holds_lanes_levels_and_nodes() {
    let rects = vec![(690, 214, 1110, 306), (490, 474, 1310, 606), (1860, 450, 2540, 630)];
    assert_eq!(canvas_size(2, 2, &rects), (3700, 1200));
    assert_eq!(canvas_size(1, 1, &[(0, 0, 5000, 2000)]), (5260, 2320));
}

#[test]
fn string_order_matches_std() {
    assert!(str_lt("n10", "n2"));
    assert!(!str_lt("n2", "n2"));
    assert!(str_lt("n", "n1"));
    assert!(!str_lt("b", "a"));
}

#[test]
fn split_offsets_spread_level_sources() {
    let rects = vec![(0, 0, 100, 100), (0, 150, 100, 200), (200, 150, 300, 200)];
    let edges = vec![redge(0, 1, None, None), redge(1, 2, None, None), redge(2, 0, None, None)];
    assert_eq!(split_offsets(&names(&["a", "b", "c"]), &rects, &edges), vec![0, -9, 9]);
    let only_one = vec![redge(0, 1, None, None)];
    assert_eq!(split_offsets(&names(&["a", "b", "c"]), &rects, &only_one), vec![0, 0, 0]);
}

#[test]
fn outgoing_positions() {
    let edges = vec![
        redge(0, 1, Some("yes"), None),
        redge(0, 2, Some("no"), None),
        redge(0, 1, Some("yes"), None),
        redge(1, 2, None, None),
    ];
    assert_eq!(out_positions(&edges), vec![(2, 3), (1, 3), (2, 3), (0, 1)]);
}

#[test]
fn port_claiming_order() {
    let rects = vec![(0, 0, 100, 50), (0, 100, 100, 150), (200, 100, 300, 150)];
    let edges = vec![redge(0, 2, None, None), redge(0, 1, None, None), redge(2, 1, None, None)];
    assert_eq!(edge_order(&names(&["n1", "n2", "n3"]), &[0, 1, 1], &rects, &edges), vec![1, 2, 0]);
}

#[test]
fn sibling_label_anchors() {
    let p0 = EdgePath { from: 0, to: 1, label: Some("yes".into()), path: vec![(100, 100), (100, 150), (50, 150), (50, 200)] };
    let p1 = EdgePath { from: 0, to: 2, label: Some("no".into()), path: vec![(100, 100), (100, 150), (150, 150), (150, 200)] };
    let lone = EdgePath { from: 3, to: 1, label: None, path: vec![(500, 100), (500, 200)] };
    let anchors = branch_anchors(&[p0, p1, lone]);
    assert_eq!(anchors[0], Some(BranchAnchor { x: 75, y: 128, horizontal: true }));
    assert_eq!(anchors[1], Some(BranchAnchor { x: 125, y: 172, horizontal: true }));
    assert_eq!(anchors[2], None);
}

#[test]
fn label_boxes_avoid_nodes_and_labels() {
    assert_eq!(place_label(100, 100, false, None, 40, 20, 1000, 1000, &[], &[]), (78, 98, 122, 122));
    assert_eq!(place_label(100, 100, false, None, 40, 20, 1000, 1000, &[], &[(0, 90, 200, 130)]), (78, 140, 122, 164));
    assert_eq!(place_label(100, 100, true, None, 40, 20, 1000, 1000, &[], &[]), (78, 115, 122, 139));
    assert_eq!(place_label(5, 5, false, None, 40, 20, 1000, 1000, &[], &[]), (8, 8, 52, 32));
    let a = BranchAnchor { x: 75, y: 128, horizontal: true };
    assert_eq!(place_label(0, 0, false, Some(a), 20, 10, 1000, 1000, &[(60, 120, 90, 140)], &[]), (63, 102, 87, 116));
}

#[test]
fn a_straight_edge_is_routed_between_facing_ports() {
    let levels = [0, 1];
    let shapes = [Shape::Terminator, Shape::Terminator];
    let rects = place_nodes(&[0, 0], &levels, &shapes, &[0], &[0, 1], &[0, 0]).unwrap();
    let (rects, _, _) = spread_levels(rects, &levels, &[0, 1]).unwrap();
    let edges = vec![redge(0, 1, None, None)];
    let nm = names(&["n0", "n1"]);
    let texts = names(&["Start", "End"]);
    let order = edge_order(&nm, &levels, &rects, &edges);
    assert_eq!(order, vec![0]);
    let mut plans = plan_edges(&nm, &shapes, &texts, &levels, &rects, &edges, &order, 3700).unwrap();
    assert_eq!(plans.len(), 1);
    assert!(plans[0].force_center);
    let paths = route_edges(&rects, &edges, &mut plans).unwrap();
    assert_eq!(paths.len(), 1);
    let p = &paths[0].path;
    let (r0, r1) = (rects[0], rects[1]);
    assert_eq!(p[0].1, r0.3);
    assert_eq!(*p.last().unwrap(), plans[0].tx_override);
    for k in 0..p.len() - 1 {
        assert!(p[k].0 == p[k + 1].0 || p[k].1 == p[k + 1].1);
    }
    let last = *p.last().unwrap();
    assert!(last.1 == r1.1 || last.0 == r1.0 || last.0 == r1.2);
}

#[test]
fn back_edges_take_outer_lanes_in_visit_order() {
    let levels = [0, 1, 2];
    let shapes = [Shape::Process, Shape::Process, Shape::Process];
    let rects = place_nodes(&[0, 0, 0], &levels, &shapes, &[0], &[0, 1, 2], &[0, 0, 0]).unwrap();
    let (rects, _, _) = spread_levels(rects, &levels, &[0, 1, 2]).unwrap();
    let edges = vec![
        redge(0, 1, None, None),
        redge(1, 2, None, None),
        redge(2, 0, None, None),
        redge(1, 0, None, None),
        redge(2, 1, None, None),
    ];
    let nm = names(&["a", "b", "c"]);
    let texts = names(&["a", "b", "c"]);
    let order = edge_order(&nm, &levels, &rects, &edges);
    let plans = plan_edges(&nm, &shapes, &texts, &levels, &rects, &edges, &order, 3700).unwrap();
    let min_x = rects.iter().map(|r| r.0).min().unwrap();
    assert_eq!(plans[0].side_lane_x, None);
    assert_eq!(plans[1].side_lane_x, None);
    let at = |k: usize| order.iter().position(|&x| x == k).unwrap();
    let first_from_c = at(2).min(at(4));
    let (first, second) = if first_from_c < at(3) { (2, 3) } else { (3, 2) };
    assert_eq!(plans[first].side_lane_x, Some(min_x - 220));
    assert_eq!(plans[second].side_lane_x, Some(min_x - 350));
    assert_eq!(plans[4].side_lane_x, plans[2].side_lane_x);
}
