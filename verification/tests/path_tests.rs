use codeflow::path::{
    common_prefix_points, copy_path, extend_unique, path_len_and_bends, path_segments, path_segments_count, pt_in,
    simplify_path, unique_ports, EdgePath,
};
use codeflow::ports::{
    choose_input_port_prioritize_top, choose_port_role, decision_output_side_order, input_port_candidates,
    output_port_candidates, port_variants, side_port_candidates, top_entry_clearance_available, PortRole,
};
use codeflow::geometry::{Shape, Side};

#[test]
fn simplify_removes_repeats_and_collinear_points() {
    let p = vec![(0, 0), (0, 0), (0, 5), (0, 10), (5, 10)];
    assert_eq!(simplify_path(&p), vec![(0, 0), (0, 10), (5, 10)]);
    assert_eq!(simplify_path(&[]), Vec::<(i32, i32)>::new());
    assert_eq!(simplify_path(&[(1, 1)]), vec![(1, 1)]);
    let q = vec![(0, 0), (5, 0), (10, 0), (10, 5), (10, 9)];
    assert_eq!(simplify_path(&q), vec![(0, 0), (10, 0), (10, 9)]);
}

#[test]
fn path_length_and_bends() {
    assert_eq!(path_len_and_bends(&[(0, 0), (0, 10), (5, 10), (5, 20)]), (25, 2));
    assert_eq!(path_len_and_bends(&[(0, 0)]), (0, 0));
    assert_eq!(path_len_and_bends(&[(0, 0), (3, 4)]), (7, 0));
}

#[test]
fn path_segments_and_count() {
    let p = [(0, 0), (0, 10), (5, 12)];
    assert_eq!(path_segments(&p), vec![('v', 0, 0, 10), ('x', 0, 0, 0)]);
    assert_eq!(path_segments_count(&p), 1);
    assert_eq!(path_segments_count(&[(0, 0)]), 0);
}

#[test]
fn common_prefix_length() {
    assert_eq!(common_prefix_points(&[(0, 0), (1, 1), (2, 2)], &[(0, 0), (1, 1), (3, 3)]), 2);
    assert_eq!(common_prefix_points(&[(0, 0)], &[(1, 0)]), 0);
    assert_eq!(common_prefix_points(&[(0, 0), (1, 1)], &[(0, 0)]), 1);
}

#[test]
fn unique_and_extend() {
    assert_eq!(unique_ports(&[(1, 1), (2, 2), (1, 1)]), vec![(1, 1), (2, 2)]);
    let mut d = vec![(1, 1)];
    extend_unique(&mut d, vec![(1, 1), (3, 3), (3, 3)]);
    assert_eq!(d, vec![(1, 1), (3, 3)]);
    assert!(pt_in(&d, (3, 3)));
    assert!(!pt_in(&d, (4, 4)));
    assert_eq!(copy_path(&d), d);
}

#[test]
fn port_variants_sorted_by_distance() {
    let c = [(10, 0), (1, 0), (0, 0), (5, 5)];
    assert_eq!(port_variants((0, 0), &c, 2), vec![(0, 0), (1, 0)]);
    assert_eq!(port_variants((0, 0), &c, 0), vec![(0, 0)]);
    assert_eq!(port_variants((0, 0), &c, 10), vec![(0, 0), (1, 0), (10, 0), (5, 5)]);
}

#[test]
fn side_ports_of_a_rectangle() {
    let r = (0, 0, 100, 50);
    assert_eq!(side_port_candidates(r, Shape::Process, Side::Top), vec![(50, 0), (25, 0), (75, 0)]);
    assert_eq!(side_port_candidates(r, Shape::Decision, Side::Top), vec![(50, 0)]);
    assert_eq!(side_port_candidates(r, Shape::Loop, Side::Bottom), vec![(50, 50), (25, 50), (75, 50)]);
    assert_eq!(side_port_candidates(r, Shape::Process, Side::Left), vec![(0, 25)]);
    assert_eq!(side_port_candidates(r, Shape::Process, Side::Right), vec![(100, 25)]);
    assert_eq!(side_port_candidates(r, Shape::Process, Side::Center), vec![(50, 25)]);
}

#[test]
fn output_and_input_candidates() {
    let r = (0, 0, 100, 50);
    assert_eq!(output_port_candidates(r, Shape::Decision, Some(Side::Right)), vec![(50, 50), (100, 25), (0, 25)]);
    assert_eq!(output_port_candidates(r, Shape::Decision, None), vec![(50, 50), (0, 25), (100, 25)]);
    assert_eq!(
        input_port_candidates(r, Shape::Process, None),
        vec![(50, 0), (25, 0), (75, 0), (0, 25), (100, 25)]
    );
    assert_eq!(input_port_candidates(r, Shape::Decision, Some(Side::Right)), vec![(50, 0), (100, 25), (0, 25)]);
}

#[test]
fn decision_side_orders() {
    let src = (0, 0, 100, 50);
    assert_eq!(decision_output_side_order(src, (200, 100, 300, 150), ""), vec![Side::Right, Side::Bottom, Side::Left]);
    assert_eq!(decision_output_side_order(src, (-300, 100, -200, 150), ""), vec![Side::Left, Side::Bottom, Side::Right]);
    assert_eq!(decision_output_side_order(src, (0, 100, 100, 150), ""), vec![Side::Bottom, Side::Left, Side::Right]);
    assert_eq!(decision_output_side_order(src, (200, 100, 300, 150), "elseif"), vec![Side::Bottom, Side::Left, Side::Right]);
    assert_eq!(decision_output_side_order(src, (0, 100, 100, 150), "yes"), vec![Side::Left, Side::Bottom, Side::Right]);
    assert_eq!(decision_output_side_order(src, (0, 100, 100, 150), "no"), vec![Side::Right, Side::Bottom, Side::Left]);
    assert_eq!(decision_output_side_order(src, (200, 100, 300, 150), "yes"), vec![Side::Right, Side::Bottom, Side::Left]);
}

#[test]
fn top_entry_clearance() {
    let blocked = [(0, 0, 100, 50), (0, 100, 100, 150)];
    assert!(!top_entry_clearance_available(&blocked, 1, blocked[1]));
    let clear = [(0, 0, 100, 40), (0, 100, 100, 150)];
    assert!(top_entry_clearance_available(&clear, 1, clear[1]));
}

#[test]
fn port_choice_prefers_free_nearby_ports() {
    let mut used_in: Vec<Vec<(i32, i32)>> = vec![vec![]];
    let mut used_out: Vec<Vec<(i32, i32)>> = vec![vec![]];
    let c = [(0, 0), (10, 0)];
    let p = choose_port_role(&mut used_in, &mut used_out, 0, &c, PortRole::Out, Some((9, 0)));
    assert_eq!(p, (10, 0));
    assert_eq!(used_out[0], vec![(10, 0)]);
    let q = choose_port_role(&mut used_in, &mut used_out, 0, &c, PortRole::Out, Some((9, 0)));
    assert_eq!(q, (0, 0));
    let r = choose_port_role(&mut used_in, &mut used_out, 0, &c, PortRole::In, None);
    assert_eq!(r, (0, 0));
}

#[test]
fn input_port_prefers_top_centre() {
    let rects = [(0, 0, 100, 40), (0, 100, 100, 150)];
    let mut used_in: Vec<Vec<(i32, i32)>> = vec![vec![], vec![]];
    let mut used_out: Vec<Vec<(i32, i32)>> = vec![vec![], vec![]];
    let c = [(50, 100), (0, 125)];
    let p = choose_input_port_prioritize_top(&mut used_in, &mut used_out, 1, &rects, rects[1], &c, Some((0, 125)));
    assert_eq!(p, (50, 100));
    let q = choose_input_port_prioritize_top(&mut used_in, &mut used_out, 1, &rects, rects[1], &c, Some((0, 125)));
    assert_eq!(q, (0, 125));
}

#[test]
fn edge_path_is_plain_data() {
    let e = EdgePath { from: 0, to: 1, label: Some("yes".to_string()), path: vec![(0, 0), (0, 10)] };
    assert_eq!(e.clone().path, vec![(0, 0), (0, 10)]);
}
