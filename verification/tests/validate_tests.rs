use codeflow::path::EdgePath;
use codeflow::validate::validate_layout;

fn names(n: usize) -> Vec<String> {
    (1..=n).map(|i| format!("n{}", i)).collect()
}

fn edge(from: usize, to: usize, path: Vec<(i32, i32)>) -> EdgePath {
    EdgePath { from, to, label: None, path }
}

#[test]
fn overlapping_nodes_are_reported() {
    let r = validate_layout(&names(2), &[(0, 0, 100, 50), (50, 25, 150, 75)], &[]);
    assert_eq!(r.node_overlaps, 1);
    assert_eq!(r.issue_count, 1);
    assert_eq!(r.issue_samples, vec!["Node overlap: n1 with n2"]);
    assert_eq!((r.nodes, r.edges), (2, 0));
}

#[test]
fn clean_layout_has_no_issues() {
    let rects = [(0, 0, 100, 50), (0, 200, 100, 250)];
    let r = validate_layout(&names(2), &rects, &[edge(0, 1, vec![(50, 50), (50, 200)])]);
    assert_eq!(r.issue_count, 0);
    assert!(r.issue_samples.is_empty());
    assert_eq!(r.bad_entry_direction_edges, 0);
}

#[test]
fn bad_entry_direction() {
    let rects = [(0, 0, 100, 50), (0, 100, 100, 150)];
    let r = validate_layout(&names(2), &rects, &[edge(0, 1, vec![(50, 50), (50, 100)])]);
    assert_eq!(r.bad_entry_direction_edges, 1);
    assert_eq!(
        r.issue_samples,
        vec!["Edge n1->n2 bad final-entry direction: top expects downward entry with min 52px, got (50, 50)->(50, 100)"]
    );
}

#[test]
fn diagonal_and_crossing_segments() {
    let rects = [(0, 0, 100, 50), (0, 400, 100, 450), (0, 200, 100, 250)];
    let r = validate_layout(&names(3), &rects, &[edge(0, 1, vec![(50, 50), (60, 60), (60, 400)])]);
    assert_eq!(r.non_orth_segments, 1);
    assert_eq!(r.edge_node_crossings, 2);
    assert_eq!(
        r.issue_samples,
        vec!["Non-orth segment on edge n1->n2: (50, 50)->(60, 60)", "Edge n1->n2 crosses node n3", "Edge n1->n2 crosses node n3"]
    );
    assert_eq!(r.issue_count, 3);
}

#[test]
fn parallel_overlap_and_shared_port() {
    let rects = [(-1000, -1000, -900, -900), (100, 150, 200, 250), (1000, 1000, 1100, 1100)];
    let edges = [edge(0, 1, vec![(0, 200), (100, 200)]), edge(2, 1, vec![(50, 200), (100, 200)])];
    let r = validate_layout(&names(3), &rects, &edges);
    assert_eq!(r.parallel_overlap_segments, 1);
    assert_eq!(r.edge_edge_overlaps, 1);
    assert_eq!(r.parallel_overlap_samples, vec!["H y=200 overlap=50 edges n1->n2 vs n3->n2"]);
    assert_eq!(r.shared_input_ports, 1);
    assert_eq!(r.issue_samples, vec!["Input port reused on n2 at (100, 200): 2 edges", "Parallel segments overlap: 1"]);
    assert_eq!(r.issue_count, 2);
}

#[test]
fn allowed_overlap_from_same_port() {
    let rects = [(-1000, -1000, -900, -900), (100, 150, 200, 250), (2000, 2000, 2100, 2100), (0, 300, 100, 350)];
    let edges = [edge(0, 1, vec![(0, 200), (100, 200)]), edge(0, 3, vec![(0, 200), (50, 200), (50, 300)])];
    let r = validate_layout(&names(4), &rects, &edges);
    assert_eq!(r.allowed_parallel_overlap_segments, 1);
    assert_eq!(r.allowed_parallel_overlap_samples, vec!["H y=200 overlap=50 edges n1->n2 vs n1->n4"]);
    assert_eq!(r.issue_count, 0);
}

#[test]
fn close_parallel_runs() {
    let rects = [(-1000, -1000, -900, -900), (1000, 1000, 1100, 1100), (-2000, -2000, -1900, -1900), (3000, 3000, 3100, 3100)];
    let edges = [edge(0, 1, vec![(0, 500), (200, 500)]), edge(2, 3, vec![(0, 510), (200, 510)])];
    let r = validate_layout(&names(4), &rects, &edges);
    assert_eq!(r.close_parallel_segments, 1);
    assert_eq!(r.micro_overlap_risk_segments, 0);
    assert!(r.issue_samples.contains(&"Parallel segments too close: 1".to_string()));
    let tight = [edge(0, 1, vec![(0, 500), (200, 500)]), edge(2, 3, vec![(0, 503), (200, 503)])];
    let r2 = validate_layout(&names(4), &rects, &tight);
    assert_eq!(r2.micro_overlap_risk_segments, 1);
    assert_eq!(r2.close_parallel_segments, 1);
}
