use codeflow::geometry::{
    fill_for, incoming_dir_valid, is_rect_like, node_dims, port_side_from_point, seg_contains_point, seg_hits_rect,
    seg_too_close_to_rect, segment_orient_and_span, snap_y, terminal_dir_ok_for_side, BBox, Color, EntryCheck, Shape,
    Side,
};

#[test]
fn node_dims_per_shape() {
    assert_eq!(node_dims(Shape::Terminator), (420, 92));
    assert_eq!(node_dims(Shape::Decision), (680, 180));
    assert_eq!(node_dims(Shape::Loop), (760, 112));
    assert_eq!(node_dims(Shape::Process), (820, 132));
    assert_eq!(node_dims(Shape::Other), (820, 132));
}

#[test]
fn fill_colors_per_shape() {
    assert_eq!(fill_for(Shape::Decision), Color(254, 243, 199));
    assert_eq!(fill_for(Shape::Loop), Color(220, 252, 231));
    assert_eq!(fill_for(Shape::Terminator), Color(209, 229, 255));
    assert_eq!(fill_for(Shape::Process), Color(219, 234, 254));
    assert_eq!(fill_for(Shape::Other), Color(219, 234, 254));
}

#[test]
fn rect_like_shapes() {
    assert!(is_rect_like(Shape::Process));
    assert!(is_rect_like(Shape::Loop));
    assert!(is_rect_like(Shape::Terminator));
    assert!(!is_rect_like(Shape::Decision));
    assert!(!is_rect_like(Shape::Other));
}

#[test]
fn snap_y_rounds_to_grid() {
    assert_eq!(snap_y(25), 24);
    assert_eq!(snap_y(30), 36);
    assert_eq!(snap_y(29), 24);
    assert_eq!(snap_y(-30), -36);
    assert_eq!(snap_y(-29), -24);
    assert_eq!(snap_y(0), 0);
}

#[test]
fn segment_orientation() {
    assert_eq!(segment_orient_and_span((10, 5), (0, 5)), ('h', 5, 0, 10));
    assert_eq!(segment_orient_and_span((3, 9), (3, 1)), ('v', 3, 1, 9));
    assert_eq!(segment_orient_and_span((0, 0), (1, 1)), ('x', 0, 0, 0));
}

#[test]
fn segment_hits_rectangle() {
    let r = (0, 0, 10, 10);
    assert!(seg_hits_rect((5, -10), (5, 20), r));
    assert!(!seg_hits_rect((0, -10), (0, 20), r));
    assert!(seg_hits_rect((-5, 5), (5, 5), r));
    assert!(!seg_hits_rect((-5, 10), (15, 10), r));
    assert!(seg_hits_rect((0, 0), (3, 4), r));
}

#[test]
fn segment_too_close_to_rectangle() {
    let r = (0, 10, 100, 60);
    assert!(seg_too_close_to_rect((-100, 5), (200, 5), r));
    assert!(!seg_too_close_to_rect((-100, -20), (200, -20), r));
    assert!(seg_too_close_to_rect((-100, 70), (200, 70), r));
    assert!(!seg_too_close_to_rect((90, 5), (200, 5), r));
    assert!(seg_too_close_to_rect((110, -50), (110, 100), r));
    assert!(!seg_too_close_to_rect((500, -50), (500, 100), r));
    assert!(!seg_too_close_to_rect((0, 0), (5, 5), r));
}

#[test]
fn segment_contains_point() {
    assert!(seg_contains_point((0, 0), (0, 10), (0, 5)));
    assert!(!seg_contains_point((0, 0), (0, 10), (1, 5)));
    assert!(seg_contains_point((10, 3), (0, 3), (10, 3)));
    assert!(!seg_contains_point((10, 3), (0, 3), (11, 3)));
}

#[test]
fn port_sides() {
    let r = (0, 0, 100, 50);
    assert_eq!(port_side_from_point(r, (0, 25)), Side::Left);
    assert_eq!(port_side_from_point(r, (100, 25)), Side::Right);
    assert_eq!(port_side_from_point(r, (50, 0)), Side::Top);
    assert_eq!(port_side_from_point(r, (50, 50)), Side::Bottom);
    assert_eq!(port_side_from_point(r, (50, 25)), Side::Center);
    assert_eq!(port_side_from_point(r, (0, 0)), Side::Left);
}

#[test]
fn terminal_direction_per_side() {
    assert!(terminal_dir_ok_for_side(&[(50, 0), (50, 60)], Side::Top));
    assert!(!terminal_dir_ok_for_side(&[(50, 20), (50, 60)], Side::Top));
    assert!(terminal_dir_ok_for_side(&[(50, 90), (50, 60)], Side::Bottom));
    assert!(terminal_dir_ok_for_side(&[(0, 5), (10, 5)], Side::Left));
    assert!(!terminal_dir_ok_for_side(&[(0, 5), (10, 5)], Side::Right));
    assert!(terminal_dir_ok_for_side(&[(10, 5)], Side::Right));
    assert!(terminal_dir_ok_for_side(&[(0, 5), (10, 7)], Side::Center));
}

#[test]
fn incoming_direction_checks() {
    let r = (0, 0, 100, 50);
    let (ok, why) = incoming_dir_valid(&[(50, -60), (50, 0)], r);
    assert!(ok);
    assert!(matches!(why, EntryCheck::OnSide(Side::Top, (50, -60), (50, 0))));
    let (ok, _) = incoming_dir_valid(&[(50, -10), (50, 0)], r);
    assert!(!ok);
    let (ok, why) = incoming_dir_valid(&[(50, -10), (50, 20)], r);
    assert!(!ok);
    assert!(matches!(why, EntryCheck::OffBoundary((50, 20))));
    let (ok, why) = incoming_dir_valid(&[(50, 20)], r);
    assert!(ok);
    assert!(matches!(why, EntryCheck::PathTooShort));
}

#[test]
fn bbox_grows_with_points() {
    let mut b = BBox::new();
    assert!(!b.is_valid());
    b.include_point(5, 7);
    assert!(b.is_valid());
    assert_eq!((b.min_x, b.min_y, b.max_x, b.max_y), (5, 7, 5, 7));
    b.include_rect(-3, 10, 20, -4);
    assert_eq!((b.min_x, b.min_y, b.max_x, b.max_y), (-3, -4, 20, 10));
}
