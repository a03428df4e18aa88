//! Planar geometry of the flowchart canvas: points, node rectangles,
//! orthogonal segments and poly-line paths.
use vstd::prelude::*;

verus! {

/// A canvas point `(x, y)`.
pub type Pt = (i32, i32);

/// A node rectangle `(x1, y1, x2, y2)`.
pub type Rect = (i32, i32, i32, i32);

/// A segment summary: orientation (`'h'`, `'v'` or `'x'` for diagonal),
/// fixed coordinate, and the low and high end of its span.
pub type Seg = (char, i32, i32, i32);

pub const MIN_LINE_GAP: i32 = 60;
pub const MIN_CLOSE_VIOLATION: i32 = 24;
pub const MIN_EXIT_VERTICAL: i32 = 34;
pub const MIN_EXIT_HORIZONTAL: i32 = 34;
pub const TOP_LINE_CLEAR: i32 = 18;
pub const BOTTOM_LINE_CLEAR: i32 = 26;
pub const SIDE_LINE_CLEAR: i32 = 18;
pub const MIN_TOP_ENTRY_LEN: i32 = 52;
pub const STROKE_WIDTH: i32 = 2;

/// Coordinates are kept within this bound (2^20) so that every sum and
/// difference the layout computes stays inside `i32`, and a path length
/// summed over up to 2^10 segments (`path_len_and_bends`) too.
pub open spec fn coord_ok(v: int) -> bool {
    -0x10_0000 <= v <= 0x10_0000
}

pub open spec fn pt_ok(p: Pt) -> bool {
    coord_ok(p.0 as int) && coord_ok(p.1 as int)
}

pub open spec fn rect_ok(r: Rect) -> bool {
    coord_ok(r.0 as int) && coord_ok(r.1 as int) && coord_ok(r.2 as int) && coord_ok(r.3 as int)
}

pub open spec fn path_ok(p: Seq<Pt>) -> bool {
    forall|i: int| 0 <= i < p.len() ==> pt_ok(#[trigger] p[i])
}

pub open spec fn rects_ok(rs: Seq<Rect>) -> bool {
    forall|i: int| 0 <= i < rs.len() ==> rect_ok(#[trigger] rs[i])
}

pub open spec fn imin(a: int, b: int) -> int {
    if a <= b { a } else { b }
}

pub open spec fn imax(a: int, b: int) -> int {
    if a >= b { a } else { b }
}

pub open spec fn iabs(a: int) -> int {
    if a >= 0 { a } else { -a }
}

pub fn min_i32(a: i32, b: i32) -> (r: i32)
    ensures r == imin(a as int, b as int),
{
    if a <= b { a } else { b }
}

pub fn max_i32(a: i32, b: i32) -> (r: i32)
    ensures r == imax(a as int, b as int),
{
    if a >= b { a } else { b }
}

pub fn abs_i32(a: i32) -> (r: i32)
    requires a > i32::MIN,
    ensures r == iabs(a as int),
{
    if a >= 0 { a } else { -a }
}

/// Point equality.
pub fn pt_eq(a: Pt, b: Pt) -> (r: bool)
    ensures r == (a == b),
{
    a.0 == b.0 && a.1 == b.1
}

/// Axis-aligned bounding box that grows to include points.
#[derive(Debug, Clone, Copy)]
pub struct BBox {
    pub min_x: i32,
    pub min_y: i32,
    pub max_x: i32,
    pub max_y: i32,
}

impl BBox {
    /// An empty box: minima at `i32::MAX`, maxima at `i32::MIN`.
    pub fn new() -> (b: BBox)
        ensures
            b.min_x == i32::MAX,
            b.min_y == i32::MAX,
            b.max_x == i32::MIN,
            b.max_y == i32::MIN,
            !b.spec_is_valid(),
    {
        BBox { min_x: i32::MAX, min_y: i32::MAX, max_x: i32::MIN, max_y: i32::MIN }
    }

    pub open spec fn spec_is_valid(&self) -> bool {
        self.min_x <= self.max_x && self.min_y <= self.max_y
    }

    /// Grows the box so that it contains `(x, y)`.
    pub fn include_point(&mut self, x: i32, y: i32)
        ensures
            final(self).min_x == imin(old(self).min_x as int, x as int),
            final(self).min_y == imin(old(self).min_y as int, y as int),
            final(self).max_x == imax(old(self).max_x as int, x as int),
            final(self).max_y == imax(old(self).max_y as int, y as int),
    {
        self.min_x = min_i32(self.min_x, x);
        self.min_y = min_i32(self.min_y, y);
        self.max_x = max_i32(self.max_x, x);
        self.max_y = max_i32(self.max_y, y);
    }

    /// Grows the box so that it contains both corners `(x1, y1)` and `(x2, y2)`.
    pub fn include_rect(&mut self, x1: i32, y1: i32, x2: i32, y2: i32)
        ensures
            final(self).min_x == imin(imin(old(self).min_x as int, x1 as int), x2 as int),
            final(self).min_y == imin(imin(old(self).min_y as int, y1 as int), y2 as int),
            final(self).max_x == imax(imax(old(self).max_x as int, x1 as int), x2 as int),
            final(self).max_y == imax(imax(old(self).max_y as int, y1 as int), y2 as int),
    {
        self.include_point(x1, y1);
        self.include_point(x2, y2);
    }

    /// True once the box contains at least one point.
    pub fn is_valid(&self) -> (r: bool)
        ensures r == self.spec_is_valid(),
    {
        self.min_x <= self.max_x && self.min_y <= self.max_y
    }
}

/// The shape of a flowchart node.
#[derive(Debug, Clone, Copy, PartialEq, Eq, Structural)]
pub enum Shape {
    Terminator,
    Process,
    Decision,
    Loop,
    /// Any shape name the renderer does not know; drawn like a process box.
    Other,
}

/// A side of a node rectangle (or its centre).
#[derive(Debug, Clone, Copy, PartialEq, Eq, Structural)]
pub enum Side {
    Left,
    Right,
    Top,
    Bottom,
    Center,
}

/// An RGB colour.
#[derive(Debug, Clone, Copy, PartialEq, Eq, Structural)]
pub struct Color(pub u8, pub u8, pub u8);

pub open spec fn spec_node_dims(shape: Shape) -> (i32, i32) {
    match shape {
        Shape::Terminator => (420, 92),
        Shape::Decision => (680, 180),
        Shape::Loop => (760, 112),
        _ => (820, 132),
    }
}

/// Width and height of a node of the given shape.
pub fn node_dims(shape: Shape) -> (r: (i32, i32))
    ensures r == spec_node_dims(shape),
{
    match shape {
        Shape::Terminator => (420, 92),
        Shape::Decision => (680, 180),
        Shape::Loop => (760, 112),
        _ => (820, 132),
    }
}

pub open spec fn spec_fill_for(shape: Shape) -> Color {
    match shape {
        Shape::Decision => Color(254, 243, 199),
        Shape::Loop => Color(220, 252, 231),
        Shape::Terminator => Color(209, 229, 255),
        _ => Color(219, 234, 254),
    }
}

/// Fill colour of a node of the given shape.
pub fn fill_for(shape: Shape) -> (c: Color)
    ensures c == spec_fill_for(shape),
{
    match shape {
        Shape::Decision => Color(254, 243, 199),
        Shape::Loop => Color(220, 252, 231),
        Shape::Terminator => Color(209, 229, 255),
        _ => Color(219, 234, 254),
    }
}

pub open spec fn spec_is_rect_like(shape: Shape) -> bool {
    shape == Shape::Process || shape == Shape::Loop || shape == Shape::Terminator
}

/// True for shapes drawn as (rounded) rectangles.
pub fn is_rect_like(shape: Shape) -> (r: bool)
    ensures r == spec_is_rect_like(shape),
{
    match shape {
        Shape::Process | Shape::Loop | Shape::Terminator => true,
        _ => false,
    }
}

/// `y` rounded to the nearest multiple of 12, halves rounded away from zero.
pub open spec fn spec_snap_y(y: int) -> int {
    if y >= 0 {
        ((y + 6) / 12) * 12
    } else {
        -(((-y + 6) / 12) * 12)
    }
}

/// Snaps a y coordinate to the 12 px grid.
pub fn snap_y(y: i32) -> (r: i32)
    requires coord_ok(y as int),
    ensures
        r == spec_snap_y(y as int),
        r % 12 == 0,
        iabs(r - y) <= 6,
{
    if y >= 0 {
        ((y + 6) / 12) * 12
    } else {
        -(((-y + 6) / 12) * 12)
    }
}

pub open spec fn spec_segment(a: Pt, b: Pt) -> Seg {
    if a.1 == b.1 {
        ('h', a.1, imin(a.0 as int, b.0 as int) as i32, imax(a.0 as int, b.0 as int) as i32)
    } else if a.0 == b.0 {
        ('v', a.0, imin(a.1 as int, b.1 as int) as i32, imax(a.1 as int, b.1 as int) as i32)
    } else {
        ('x', 0, 0, 0)
    }
}

/// Orientation, fixed coordinate and span of the segment `a`-`b`.
pub fn segment_orient_and_span(a: Pt, b: Pt) -> (r: Seg)
    ensures r == spec_segment(a, b),
{
    if a.1 == b.1 {
        return ('h', a.1, min_i32(a.0, b.0), max_i32(a.0, b.0));
    }
    if a.0 == b.0 {
        return ('v', a.0, min_i32(a.1, b.1), max_i32(a.1, b.1));
    }
    ('x', 0, 0, 0)
}

/// Whether the segment `a`-`b` passes through the interior of rectangle `r`;
/// a diagonal segment always counts as a hit.
pub open spec fn spec_seg_hits_rect(a: Pt, b: Pt, r: Rect) -> bool {
    if a.0 == b.0 {
        r.0 < a.0 && a.0 < r.2
            && imin(a.1 as int, b.1 as int) < r.3 && imax(a.1 as int, b.1 as int) > r.1
    } else if a.1 == b.1 {
        r.1 < a.1 && a.1 < r.3
            && imin(a.0 as int, b.0 as int) < r.2 && imax(a.0 as int, b.0 as int) > r.0
    } else {
        true
    }
}

pub fn seg_hits_rect(a: Pt, b: Pt, r: Rect) -> (res: bool)
    ensures res == spec_seg_hits_rect(a, b, r),
{
    let (x1, y1) = a;
    let (x2, y2) = b;
    let (rx1, ry1, rx2, ry2) = r;
    if x1 == x2 {
        if rx1 < x1 && x1 < rx2 {
            let sy1 = min_i32(y1, y2);
            let sy2 = max_i32(y1, y2);
            return sy1 < ry2 && sy2 > ry1;
        }
        return false;
    }
    if y1 == y2 {
        if ry1 < y1 && y1 < ry2 {
            let sx1 = min_i32(x1, x2);
            let sx2 = max_i32(x1, x2);
            return sx1 < rx2 && sx2 > rx1;
        }
        return false;
    }
    true
}

/// Whether an axis-parallel segment runs alongside an edge of `r` closer than
/// the clearance for that edge, over a stretch longer than 40 px.
pub open spec fn spec_seg_too_close(a: Pt, b: Pt, r: Rect) -> bool {
    if a.1 == b.1 {
        let y = a.1 as int;
        let overlap = imin(imax(a.0 as int, b.0 as int), r.2 as int)
            - imax(imin(a.0 as int, b.0 as int), r.0 as int);
        overlap > 40 && (
            (r.1 - TOP_LINE_CLEAR < y && y < r.1 + TOP_LINE_CLEAR)
            || (r.3 - BOTTOM_LINE_CLEAR < y && y < r.3 + BOTTOM_LINE_CLEAR))
    } else if a.0 == b.0 {
        let x = a.0 as int;
        let overlap = imin(imax(a.1 as int, b.1 as int), r.3 as int)
            - imax(imin(a.1 as int, b.1 as int), r.1 as int);
        overlap > 40 && (
            (r.0 - SIDE_LINE_CLEAR < x && x < r.0 + SIDE_LINE_CLEAR)
            || (r.2 - SIDE_LINE_CLEAR < x && x < r.2 + SIDE_LINE_CLEAR))
    } else {
        false
    }
}

pub fn seg_too_close_to_rect(a: Pt, b: Pt, r: Rect) -> (res: bool)
    requires pt_ok(a), pt_ok(b), rect_ok(r),
    ensures res == spec_seg_too_close(a, b, r),
{
    let (x1, y1) = a;
    let (x2, y2) = b;
    let (rx1, ry1, rx2, ry2) = r;
    if y1 == y2 {
        let y = y1;
        let sx1 = min_i32(x1, x2);
        let sx2 = max_i32(x1, x2);
        let overlap = min_i32(sx2, rx2) - max_i32(sx1, rx1);
        if overlap <= 40 {
            return false;
        }
        if (ry1 - TOP_LINE_CLEAR) < y && y < (ry1 + TOP_LINE_CLEAR) {
            return true;
        }
        if (ry2 - BOTTOM_LINE_CLEAR) < y && y < (ry2 + BOTTOM_LINE_CLEAR) {
            return true;
        }
        return false;
    }
    if x1 == x2 {
        let x = x1;
        let sy1 = min_i32(y1, y2);
        let sy2 = max_i32(y1, y2);
        let overlap = min_i32(sy2, ry2) - max_i32(sy1, ry1);
        if overlap <= 40 {
            return false;
        }
        if (rx1 - SIDE_LINE_CLEAR) < x && x < (rx1 + SIDE_LINE_CLEAR) {
            return true;
        }
        if (rx2 - SIDE_LINE_CLEAR) < x && x < (rx2 + SIDE_LINE_CLEAR) {
            return true;
        }
        return false;
    }
    false
}

/// Whether `p` lies on the axis-parallel segment `a`-`b`.
pub open spec fn spec_seg_contains_point(a: Pt, b: Pt, p: Pt) -> bool {
    if a.0 == b.0 && p.0 == a.0 {
        imin(a.1 as int, b.1 as int) <= p.1 <= imax(a.1 as int, b.1 as int)
    } else if a.1 == b.1 && p.1 == a.1 {
        imin(a.0 as int, b.0 as int) <= p.0 <= imax(a.0 as int, b.0 as int)
    } else {
        false
    }
}

pub fn seg_contains_point(a: Pt, b: Pt, p: Pt) -> (r: bool)
    ensures r == spec_seg_contains_point(a, b, p),
{
    if a.0 == b.0 && p.0 == a.0 {
        let lo = min_i32(a.1, b.1);
        let hi = max_i32(a.1, b.1);
        return lo <= p.1 && p.1 <= hi;
    }
    if a.1 == b.1 && p.1 == a.1 {
        let lo = min_i32(a.0, b.0);
        let hi = max_i32(a.0, b.0);
        return lo <= p.0 && p.0 <= hi;
    }
    false
}

/// The side of `rect` that `pt` lies on (left and right take precedence).
pub open spec fn spec_port_side(rect: Rect, pt: Pt) -> Side {
    if pt.0 == rect.0 {
        Side::Left
    } else if pt.0 == rect.2 {
        Side::Right
    } else if pt.1 == rect.1 {
        Side::Top
    } else if pt.1 == rect.3 {
        Side::Bottom
    } else {
        Side::Center
    }
}

pub fn port_side_from_point(rect: Rect, pt: Pt) -> (s: Side)
    ensures s == spec_port_side(rect, pt),
{
    let (x1, y1, x2, y2) = rect;
    if pt.0 == x1 {
        Side::Left
    } else if pt.0 == x2 {
        Side::Right
    } else if pt.1 == y1 {
        Side::Top
    } else if pt.1 == y2 {
        Side::Bottom
    } else {
        Side::Center
    }
}

/// Whether the last segment `a`-`b` enters a node from the given side in the
/// direction that side expects (top: downward over at least
/// `MIN_TOP_ENTRY_LEN`; bottom: upward; left: rightward; right: leftward).
pub open spec fn spec_entry_ok(side: Side, a: Pt, b: Pt) -> bool {
    let dx = b.0 - a.0;
    let dy = b.1 - a.1;
    match side {
        Side::Top => dx == 0 && dy >= MIN_TOP_ENTRY_LEN,
        Side::Bottom => dx == 0 && dy < 0,
        Side::Left => dy == 0 && dx > 0,
        Side::Right => dy == 0 && dx < 0,
        Side::Center => true,
    }
}

pub open spec fn spec_terminal_dir_ok(path: Seq<Pt>, dst_side: Side) -> bool {
    path.len() < 2 || spec_entry_ok(dst_side, path[path.len() - 2], path[path.len() - 1])
}

/// Whether the final segment of `path` enters from `dst_side` correctly;
/// paths shorter than two points are accepted.
pub fn terminal_dir_ok_for_side(path: &[Pt], dst_side: Side) -> (r: bool)
    requires path_ok(path@),
    ensures r == spec_terminal_dir_ok(path@, dst_side),
{
    if path.len() < 2 {
        return true;
    }
    let a = path[path.len() - 2];
    let b = path[path.len() - 1];
    let dx = b.0 - a.0;
    let dy = b.1 - a.1;
    match dst_side {
        Side::Top => dx == 0 && dy >= MIN_TOP_ENTRY_LEN,
        Side::Bottom => dx == 0 && dy < 0,
        Side::Left => dy == 0 && dx > 0,
        Side::Right => dy == 0 && dx < 0,
        Side::Center => true,
    }
}

/// Why a path's final segment was judged as it was.
#[derive(Debug, Clone, Copy)]
pub enum EntryCheck {
    PathTooShort,
    /// The endpoint is on the given side; the pair is the final segment.
    OnSide(Side, Pt, Pt),
    /// The endpoint is not on the node's boundary.
    OffBoundary(Pt),
}

pub open spec fn spec_incoming_dir_valid(path: Seq<Pt>, dst_rect: Rect) -> (bool, EntryCheck) {
    if path.len() < 2 {
        (true, EntryCheck::PathTooShort)
    } else {
        let a = path[path.len() - 2];
        let b = path[path.len() - 1];
        let side = spec_port_side(dst_rect, b);
        if side == Side::Center {
            (false, EntryCheck::OffBoundary(b))
        } else {
            (spec_entry_ok(side, a, b), EntryCheck::OnSide(side, a, b))
        }
    }
}

/// Whether `path` ends on `dst_rect`'s boundary, entering in the direction
/// its side expects, with the evidence for the verdict.
pub fn incoming_dir_valid(path: &[Pt], dst_rect: Rect) -> (r: (bool, EntryCheck))
    requires path_ok(path@),
    ensures r == spec_incoming_dir_valid(path@, dst_rect),
{
    if path.len() < 2 {
        return (true, EntryCheck::PathTooShort);
    }
    let a = path[path.len() - 2];
    let b = path[path.len() - 1];
    let side = port_side_from_point(dst_rect, b);
    match side {
        Side::Center => (false, EntryCheck::OffBoundary(b)),
        _ => {
            let one = [a, b];
            (terminal_dir_ok_for_side(&one, side), EntryCheck::OnSide(side, a, b))
        },
    }
}

/// Integer division truncating toward zero, as Rust's `/` on integers.
pub open spec fn tdiv(a: int, b: int) -> int {
    if a >= 0 { a / b } else { -((-a) / b) }
}

} // verus!
