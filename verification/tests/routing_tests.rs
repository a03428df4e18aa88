use codeflow::geometry::Side;
use codeflow::path::EdgePath;
use codeflow::router::route_edge_smart;
use codeflow::routing::{
    choose_best_path, clear_vertical_x, is_loop_next_done_siblings, path_collides, path_respects_block_constraints,
    path_respects_parallel_constraints, path_spacing_penalty, path_spacing_penalty_for_edge,
    path_spacing_penalty_from_segments,
};
use codeflow::scoring::{edge_conflict_score, input_port_usage};

fn edge(from: usize, to: usize, label: Option<&str>, path: Vec<(i32, i32)>) -> EdgePath {
    EdgePath { from, to, label: label.map(|s| s.to_string()), path }
}

#[test]
fn collisions_with_other_nodes() {
    let with_obstacle = [(0, 0, 100, 50), (0, 250, 100, 300), (0, 100, 100, 150)];
    assert!(path_collides(&[(50, 50), (50, 250)], &with_obstacle, 0, 1));
    let clear = [(0, 0, 100, 50), (0, 250, 100, 300)];
    assert!(!path_collides(&[(50, 50), (50, 250)], &clear, 0, 1));
    assert!(path_collides(&[(50, 50), (60, 250)], &clear, 0, 1));
}

#[test]
fn block_constraints() {
    let rects = [(0, 0, 100, 50), (0, 250, 100, 300)];
    assert!(path_respects_block_constraints(&[(50, 50), (50, 250)], &rects, 0, 1));
    assert!(!path_respects_block_constraints(&[(50, 50)], &rects, 0, 1));
    assert!(path_respects_block_constraints(&[(50, 10), (50, 250)], &rects, 0, 1));
    let blocked = [(0, 0, 100, 50), (0, 250, 100, 300), (0, 100, 100, 150)];
    assert!(!path_respects_block_constraints(&[(50, 50), (50, 250)], &blocked, 0, 1));
    assert!(!path_respects_block_constraints(&[(50, 50), (60, 250)], &rects, 0, 1));
}

#[test]
fn parallel_constraints() {
    let existing = vec![edge(5, 6, None, vec![(0, 0), (0, 100)])];
    assert!(!path_respects_parallel_constraints(&[(0, 50), (0, 150)], 3, &existing));
    assert!(path_respects_parallel_constraints(&[(100, 50), (100, 150)], 3, &existing));
    assert!(path_respects_parallel_constraints(&[(0, 0), (0, 150)], 5, &existing));
    assert!(!path_respects_parallel_constraints(&[(3, 50), (3, 150)], 3, &existing));
    assert!(!path_respects_parallel_constraints(&[(0, 0)], 3, &existing));
}

#[test]
fn spacing_penalties_from_segments() {
    assert_eq!(path_spacing_penalty_from_segments(&[('h', 0, 0, 100)], &[vec![('h', 0, 50, 150)]]), 121_750);
    assert_eq!(path_spacing_penalty_from_segments(&[('h', 0, 0, 100)], &[vec![('h', 10, 50, 150)]]), 1_730);
    assert_eq!(path_spacing_penalty_from_segments(&[('h', 0, 0, 100)], &[vec![('h', 40, 50, 150)]]), 120);
    assert_eq!(path_spacing_penalty_from_segments(&[('h', 0, 0, 100)], &[vec![('h', 80, 50, 150)]]), 0);
    assert_eq!(path_spacing_penalty_from_segments(&[('x', 0, 0, 0)], &[]), 20_000);
    assert_eq!(path_spacing_penalty_from_segments(&[('v', 0, 0, 100)], &[vec![('h', 0, 0, 100)]]), 0);
}

#[test]
fn spacing_penalties_of_paths() {
    let existing = vec![edge(2, 4, None, vec![(0, 0), (150, 0)])];
    assert_eq!(path_spacing_penalty(&[(0, 0), (100, 0)], &existing), 123_500);
    assert_eq!(path_spacing_penalty_for_edge(&[(0, 0), (100, 0)], &existing, 2), 0);
    assert_eq!(path_spacing_penalty_for_edge(&[(0, 0), (100, 0)], &existing, 3), 123_500);
    assert_eq!(path_spacing_penalty(&[(0, 0), (5, 5)], &[]), 20_000);
}

#[test]
fn best_path_prefers_fewest_segments() {
    let rects = [(0, 0, 100, 50), (0, 250, 100, 300)];
    let cands = vec![
        vec![(50, 50), (50, 150), (60, 150), (60, 250)],
        vec![(50, 50), (50, 150), (50, 250)],
    ];
    assert_eq!(choose_best_path(cands, &rects, 0, 1, &[]), vec![(50, 50), (50, 250)]);
    assert_eq!(choose_best_path(vec![], &rects, 0, 1, &[]), Vec::<(i32, i32)>::new());
}

#[test]
fn vertical_lane_clearing() {
    let rects = [(0, 100, 100, 150)];
    assert_eq!(clear_vertical_x(50, 0, 300, &rects, 5, 6, 1, -1000, 1000), 110);
    assert_eq!(clear_vertical_x(50, 300, 0, &rects, 5, 6, -1, -1000, 1000), -10);
    assert_eq!(clear_vertical_x(200, 0, 300, &rects, 5, 6, 1, -1000, 1000), 200);
    assert_eq!(clear_vertical_x(50, 0, 300, &rects, 0, 6, 1, -1000, 1000), 50);
}

#[test]
fn loop_siblings() {
    let next = edge(4, 3, Some("next"), vec![]);
    let done = edge(3, 7, Some("done"), vec![]);
    assert!(is_loop_next_done_siblings(&next, &done));
    assert!(is_loop_next_done_siblings(&done, &next));
    let other = edge(3, 7, Some("yes"), vec![]);
    assert!(!is_loop_next_done_siblings(&next, &other));
}

#[test]
fn conflict_score_counts_overlaps_and_crossings() {
    let far = (5000, 5000, 5100, 5100);
    let mut rects = vec![far, far, far, far];
    let edges = vec![edge(0, 1, None, vec![(0, 0), (0, 100)]), edge(2, 3, None, vec![(0, 50), (0, 150)])];
    assert_eq!(edge_conflict_score(0, &edges, &rects), 2_900);
    rects.push((-10, 20, 10, 30));
    assert_eq!(edge_conflict_score(0, &edges, &rects), 5_900);
    let same_port = vec![edge(0, 1, None, vec![(0, 0), (0, 100)]), edge(0, 3, None, vec![(0, 0), (0, 150)])];
    assert_eq!(edge_conflict_score(0, &same_port, &[far, far, far, far]), 0);
}

#[test]
fn input_ports_grouped() {
    let edges = vec![
        edge(0, 1, None, vec![(0, 0), (0, 100)]),
        edge(2, 1, None, vec![(5, 0), (0, 100)]),
        edge(3, 1, None, vec![(5, 5)]),
        edge(4, 1, None, vec![]),
    ];
    let u = input_port_usage(&edges);
    assert_eq!(u, vec![((1, (0, 100)), vec![0, 1]), ((1, (5, 5)), vec![2])]);
}

#[test]
fn routes_straight_down_when_clear() {
    let rects = [(0, 0, 100, 50), (0, 250, 100, 300)];
    let p = route_edge_smart(0, 1, &rects, &[], 0, 1, 78, false, None, (50, 50), (50, 250), Side::Bottom, Side::Top, None, (40, 2000));
    assert_eq!(p.first(), Some(&(50, 50)));
    assert_eq!(p.last(), Some(&(50, 250)));
    for w in p.windows(2) {
        assert!(w[0].0 == w[1].0 || w[0].1 == w[1].1);
    }
}

#[test]
fn scores_and_penalties_grow_with_more_edges_and_nodes() {
    let rects = vec![(0, 0, 100, 50), (0, 250, 100, 300)];
    let base = vec![edge(0, 1, None, vec![(50, 50), (50, 250)])];
    let s0 = edge_conflict_score(0, &base, &rects);
    assert_eq!(s0, 0);
    let mut more = vec![edge(0, 1, None, vec![(50, 50), (50, 250)])];
    more.push(edge(1, 0, None, vec![(50, 60), (50, 240)]));
    assert!(edge_conflict_score(0, &more, &rects) >= s0);
    let mut rects2 = rects.clone();
    rects2.push((0, 100, 100, 150));
    assert_eq!(edge_conflict_score(0, &base, &rects2), 3_000);
    let segs = [('h', 0, 0, 100), ('x', 0, 0, 0)];
    let a = vec![vec![('h', 0, 50, 150)]];
    let b = vec![vec![('h', 10, 50, 150)]];
    let ab = vec![vec![('h', 0, 50, 150)], vec![('h', 10, 50, 150)]];
    assert_eq!(
        path_spacing_penalty_from_segments(&segs, &ab),
        path_spacing_penalty_from_segments(&segs, &a) + path_spacing_penalty_from_segments(&segs, &b) - 20_000
    );
    assert_eq!(path_spacing_penalty_from_segments(&segs, &[]), 20_000);
}

#[test]
fn passing_the_block_check_means_no_collision() {
    let rects = [(0, 0, 100, 50), (0, 250, 100, 300), (0, 100, 100, 150)];
    let p = [(50, 50), (200, 50), (200, 250), (50, 250)];
    assert!(path_respects_block_constraints(&p, &rects, 0, 1));
    assert!(!path_collides(&p, &rects, 0, 1));
    let q = [(50, 50), (50, 250)];
    assert!(!path_respects_block_constraints(&q, &rects, 0, 1));
    assert!(path_collides(&q, &rects, 0, 1));
}
