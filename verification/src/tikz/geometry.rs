//! Exact integer geometry of straight cover segments on the layout grid.
//!
//! A layout is judged by three kinds of defects between its straight
//! segments: proper crossings, segments that pass through an unrelated node,
//! and collinear overlaps.  All tests are exact integer computations.

use crate::edges::{Edge, ElementId};
use crate::tikz::counting::{
    distinct_entries, grid_sum, lemma_grid_add, lemma_grid_bounded, lemma_grid_ext,
    lemma_grid_transpose, lemma_pick_bounded, lemma_pick_is_restricted_row, lemma_row_add,
    lemma_row_bounded, lemma_row_ext, lemma_row_zero, pick_sum, row_sum,
};
use vstd::prelude::*;

verus! {

/// A point of the layout grid.
#[derive(Debug, Clone, Copy, PartialEq, Eq, Structural)]
pub struct GridPoint {
    /// The horizontal coordinate.
    pub x: i64,
    /// The vertical coordinate.
    pub y: i64,
}

/// `v` fits in an `i64`.
pub open spec fn fits_i64(v: int) -> bool {
    i64::MIN <= v <= i64::MAX
}

/// `v` fits in an `i128`.
pub open spec fn fits_i128(v: int) -> bool {
    i128::MIN <= v <= i128::MAX
}

/// The coordinate differences `b - a` fit in an `i64`.
pub open spec fn differences_fit(a: GridPoint, b: GridPoint) -> bool {
    fits_i64(b.x - a.x) && fits_i64(b.y - a.y)
}

/// Twice the signed area of the triangle `a, b, c`: positive when `c` lies
/// to the left of the directed line from `a` to `b`.
pub open spec fn orientation(a: GridPoint, b: GridPoint, c: GridPoint) -> int {
    (b.x - a.x) * (c.y - a.y) - (b.y - a.y) * (c.x - a.x)
}

/// The larger of two integers.
pub open spec fn max_int(a: int, b: int) -> int {
    if a >= b { a } else { b }
}

/// The smaller of two integers.
pub open spec fn min_int(a: int, b: int) -> int {
    if a <= b { a } else { b }
}

/// One of the two numbers is negative and the other positive.
pub open spec fn opposite_signs(left: int, right: int) -> bool {
    (left < 0 && right > 0) || (left > 0 && right < 0)
}

/// The closed intervals spanned by `a, b` and by `c, d` share more than one
/// point.
pub open spec fn strictly_overlap(a: int, b: int, c: int, d: int) -> bool {
    max_int(min_int(a, b), min_int(c, d)) < min_int(max_int(a, b), max_int(c, d))
}

/// The segments `ab` and `cd` cross at a point interior to both.
pub open spec fn properly_cross(a: GridPoint, b: GridPoint, c: GridPoint, d: GridPoint) -> bool {
    opposite_signs(orientation(a, b, c), orientation(a, b, d)) && opposite_signs(
        orientation(c, d, a),
        orientation(c, d, b),
    )
}

/// The segments `ab` and `cd` lie on one line and overlap in more than a
/// point; the overlap is measured along the axis in which `ab` is longer.
pub open spec fn collinearly_overlap(a: GridPoint, b: GridPoint, c: GridPoint, d: GridPoint) -> bool {
    if orientation(a, b, c) != 0 || orientation(a, b, d) != 0 {
        false
    } else if abs_int(b.x - a.x) >= abs_int(b.y - a.y) {
        strictly_overlap(a.x as int, b.x as int, c.x as int, d.x as int)
    } else {
        strictly_overlap(a.y as int, b.y as int, c.y as int, d.y as int)
    }
}

/// The absolute value.
pub open spec fn abs_int(v: int) -> int {
    if v < 0 { -v } else { v }
}

/// The dot product of `p - a` with `b - a`.
pub open spec fn projection(a: GridPoint, b: GridPoint, p: GridPoint) -> int {
    (p.x - a.x) * (b.x - a.x) + (p.y - a.y) * (b.y - a.y)
}

/// The squared length of `b - a`.
pub open spec fn length_squared(a: GridPoint, b: GridPoint) -> int {
    (b.x - a.x) * (b.x - a.x) + (b.y - a.y) * (b.y - a.y)
}

/// `p` lies on the segment `ab`, strictly between its endpoints.
pub open spec fn strictly_on_segment(a: GridPoint, b: GridPoint, p: GridPoint) -> bool {
    orientation(a, b, p) == 0 && 0 < projection(a, b, p) < length_squared(a, b)
}

/// Products of two `i64` values, and the difference of two such products,
/// fit in an `i128`.
proof fn lemma_product_bounds(a: int, b: int, c: int, d: int)
    requires
        fits_i64(a),
        fits_i64(b),
        fits_i64(c),
        fits_i64(d),
    ensures
        fits_i128(a * b),
        fits_i128(c * d),
        fits_i128(a * b - c * d),
{
    assert(-0x4000_0000_0000_0000_0000_0000_0000_0000int + 0x8000_0000_0000_0000int <= a * b
        <= 0x4000_0000_0000_0000_0000_0000_0000_0000int) by (nonlinear_arith)
        requires
            fits_i64(a),
            fits_i64(b),
    ;
    assert(-0x4000_0000_0000_0000_0000_0000_0000_0000int + 0x8000_0000_0000_0000int <= c * d
        <= 0x4000_0000_0000_0000_0000_0000_0000_0000int) by (nonlinear_arith)
        requires
            fits_i64(c),
            fits_i64(d),
    ;
}

/// Twice the signed area of the triangle `a, b, c`.
pub fn grid_orientation(a: GridPoint, b: GridPoint, c: GridPoint) -> (r: i128)
    requires
        differences_fit(a, b),
        differences_fit(a, c),
    ensures
        r == orientation(a, b, c),
{
    proof {
        lemma_product_bounds(b.x - a.x, c.y - a.y, b.y - a.y, c.x - a.x);
    }
    (b.x - a.x) as i128 * (c.y - a.y) as i128 - (b.y - a.y) as i128 * (c.x - a.x) as i128
}

/// One of the two numbers is negative and the other positive.
pub fn have_opposite_signs(left: i128, right: i128) -> (r: bool)
    ensures
        r == opposite_signs(left as int, right as int),
{
    (left < 0 && right > 0) || (left > 0 && right < 0)
}

/// Whether the intervals spanned by `a, b` and by `c, d` share more than one
/// point.
pub fn intervals_strictly_overlap(a: i64, b: i64, c: i64, d: i64) -> (r: bool)
    ensures
        r == strictly_overlap(a as int, b as int, c as int, d as int),
{
    let low_ab = if a <= b { a } else { b };
    let high_ab = if a >= b { a } else { b };
    let low_cd = if c <= d { c } else { d };
    let high_cd = if c >= d { c } else { d };
    let low = if low_ab >= low_cd { low_ab } else { low_cd };
    let high = if high_ab <= high_cd { high_ab } else { high_cd };
    low < high
}

/// The differences that the crossing tests compute fit in an `i64`.
pub open spec fn segment_pair_fits(a: GridPoint, b: GridPoint, c: GridPoint, d: GridPoint) -> bool {
    &&& differences_fit(a, b)
    &&& differences_fit(a, c)
    &&& differences_fit(a, d)
    &&& differences_fit(c, d)
    &&& differences_fit(c, a)
    &&& differences_fit(c, b)
}

/// Whether the segments `ab` and `cd` cross at a point interior to both.
pub fn grid_segments_properly_cross(a: GridPoint, b: GridPoint, c: GridPoint, d: GridPoint) -> (r: bool)
    requires
        segment_pair_fits(a, b, c, d),
    ensures
        r == properly_cross(a, b, c, d),
{
    let ab_c = grid_orientation(a, b, c);
    let ab_d = grid_orientation(a, b, d);
    let cd_a = grid_orientation(c, d, a);
    let cd_b = grid_orientation(c, d, b);
    have_opposite_signs(ab_c, ab_d) && have_opposite_signs(cd_a, cd_b)
}

/// Whether the segments `ab` and `cd` lie on one line and overlap in more
/// than a point.
pub fn grid_segments_collinearly_overlap(a: GridPoint, b: GridPoint, c: GridPoint, d: GridPoint) -> (r: bool)
    requires
        differences_fit(a, b),
        differences_fit(a, c),
        differences_fit(a, d),
        orientation(a, b, c) == 0 && orientation(a, b, d) == 0 ==> b.x - a.x != i64::MIN && b.y - a.y != i64::MIN,
    ensures
        r == collinearly_overlap(a, b, c, d),
{
    if grid_orientation(a, b, c) != 0 || grid_orientation(a, b, d) != 0 {
        return false;
    }
    let dx = b.x - a.x;
    let dy = b.y - a.y;
    let abs_dx = if dx < 0 { -dx } else { dx };
    let abs_dy = if dy < 0 { -dy } else { dy };
    if abs_dx >= abs_dy {
        intervals_strictly_overlap(a.x, b.x, c.x, d.x)
    } else {
        intervals_strictly_overlap(a.y, b.y, c.y, d.y)
    }
}

/// Whether `point` lies on the segment `ab`, strictly between its endpoints.
pub fn grid_point_strictly_on_segment(a: GridPoint, b: GridPoint, point: GridPoint) -> (r: bool)
    requires
        differences_fit(a, b),
        differences_fit(a, point),
        orientation(a, b, point) == 0 ==> fits_i128(projection(a, b, point)) && fits_i128(length_squared(a, b)),
    ensures
        r == strictly_on_segment(a, b, point),
{
    if grid_orientation(a, b, point) != 0 {
        return false;
    }
    let rx = point.x - a.x;
    let ry = point.y - a.y;
    let sx = b.x - a.x;
    let sy = b.y - a.y;
    proof {
        lemma_product_bounds(rx as int, sx as int, ry as int, sy as int);
        lemma_product_bounds(sx as int, sx as int, sy as int, sy as int);
    }
    let projection = rx as i128 * sx as i128 + ry as i128 * sy as i128;
    let length_squared = sx as i128 * sx as i128 + sy as i128 * sy as i128;
    projection > 0 && projection < length_squared
}

/// A straight segment between two grid points, with its bounding box.
#[derive(Debug, Clone, Copy)]
pub struct GridSegment {
    /// The starting point.
    pub from: GridPoint,
    /// The ending point.
    pub to: GridPoint,
    /// The least horizontal coordinate.
    pub min_x: i64,
    /// The greatest horizontal coordinate.
    pub max_x: i64,
    /// The least vertical coordinate.
    pub min_y: i64,
    /// The greatest vertical coordinate.
    pub max_y: i64,
}

impl GridSegment {
    /// The bounding box is that of the endpoints.
    pub open spec fn wf(self) -> bool {
        &&& self.min_x == min_int(self.from.x as int, self.to.x as int)
        &&& self.max_x == max_int(self.from.x as int, self.to.x as int)
        &&& self.min_y == min_int(self.from.y as int, self.to.y as int)
        &&& self.max_y == max_int(self.from.y as int, self.to.y as int)
    }

    /// The segment from `from` to `to`.
    pub fn new(from: GridPoint, to: GridPoint) -> (r: Self)
        ensures
            r.wf(),
            r == segment_between(from, to),
    {
        GridSegment {
            from,
            to,
            min_x: if from.x <= to.x { from.x } else { to.x },
            max_x: if from.x >= to.x { from.x } else { to.x },
            min_y: if from.y <= to.y { from.y } else { to.y },
            max_y: if from.y >= to.y { from.y } else { to.y },
        }
    }

    /// Whether the two bounding boxes meet.
    pub fn bounding_box_overlaps(self, other: Self) -> (r: bool)
        ensures
            r == (self.min_x <= other.max_x && other.min_x <= self.max_x && self.min_y <= other.max_y
                && other.min_y <= self.max_y),
    {
        self.min_x <= other.max_x && other.min_x <= self.max_x && self.min_y <= other.max_y
            && other.min_y <= self.max_y
    }

    /// Whether the bounding box contains `point`.
    pub fn bounding_box_contains(self, point: GridPoint) -> (r: bool)
        ensures
            r == (self.min_x <= point.x && point.x <= self.max_x && self.min_y <= point.y && point.y
                <= self.max_y),
    {
        self.min_x <= point.x && point.x <= self.max_x && self.min_y <= point.y && point.y
            <= self.max_y
    }
}

/// The segment from `a` to `b`, with its bounding box.
pub open spec fn segment_between(a: GridPoint, b: GridPoint) -> GridSegment {
    GridSegment {
        from: a,
        to: b,
        min_x: if a.x <= b.x { a.x } else { b.x },
        max_x: if a.x >= b.x { a.x } else { b.x },
        min_y: if a.y <= b.y { a.y } else { b.y },
        max_y: if a.y >= b.y { a.y } else { b.y },
    }
}

/// Counts of the defects of a straight-line drawing, compared
/// lexicographically in field order.
#[derive(Debug, Clone, Copy, PartialEq, Eq, Structural, PartialOrd, Ord)]
pub struct StraightGeometryDefects {
    /// Pairs of segments that cross at interior points.
    pub proper_crossings: u64,
    /// Segments passing through a node other than their endpoints.
    pub node_intersections: u64,
    /// Pairs of collinear segments that overlap.
    pub collinear_overlaps: u64,
}

impl StraightGeometryDefects {
    /// No defect of any kind.
    pub fn is_clean(self) -> (r: bool)
        ensures
            r == (self.proper_crossings == 0 && self.node_intersections == 0 && self.collinear_overlaps
                == 0),
    {
        self.proper_crossings == 0 && self.node_intersections == 0 && self.collinear_overlaps == 0
    }

    /// Replaces a counted contribution `before`, part of `self`, by `after`.
    pub fn replace_contribution(self, before: Self, after: Self) -> (r: Self)
        requires
            before.proper_crossings <= self.proper_crossings,
            before.node_intersections <= self.node_intersections,
            before.collinear_overlaps <= self.collinear_overlaps,
            self.proper_crossings - before.proper_crossings + after.proper_crossings <= u64::MAX,
            self.node_intersections - before.node_intersections + after.node_intersections <= u64::MAX,
            self.collinear_overlaps - before.collinear_overlaps + after.collinear_overlaps <= u64::MAX,
        ensures
            r.proper_crossings == self.proper_crossings - before.proper_crossings + after.proper_crossings,
            r.node_intersections == self.node_intersections - before.node_intersections + after.node_intersections,
            r.collinear_overlaps == self.collinear_overlaps - before.collinear_overlaps + after.collinear_overlaps,
    {
        StraightGeometryDefects {
            proper_crossings: self.proper_crossings - before.proper_crossings + after.proper_crossings,
            node_intersections: self.node_intersections - before.node_intersections
                + after.node_intersections,
            collinear_overlaps: self.collinear_overlaps - before.collinear_overlaps
                + after.collinear_overlaps,
        }
    }
}

/// The two edges share an endpoint.
pub open spec fn share_endpoint(left: Edge, right: Edge) -> bool {
    left.from == right.from || left.from == right.to || left.to == right.from || left.to == right.to
}

/// Whether the two edges share an endpoint.
pub fn edges_share_endpoint(left: Edge, right: Edge) -> (r: bool)
    ensures
        r == share_endpoint(left, right),
{
    left.from == right.from || left.from == right.to || left.to == right.from || left.to == right.to
}

/// The defect that a pair of segments adds: a proper crossing, else a
/// collinear overlap, else none; boxes that do not meet add nothing.
pub open spec fn pair_defect(segment: GridSegment, other: GridSegment) -> (int, int) {
    let boxes = segment.min_x <= other.max_x && other.min_x <= segment.max_x && segment.min_y
        <= other.max_y && other.min_y <= segment.max_y;
    if !boxes {
        (0, 0)
    } else if properly_cross(segment.from, segment.to, other.from, other.to) {
        (1, 0)
    } else if collinearly_overlap(segment.from, segment.to, other.from, other.to) {
        (0, 1)
    } else {
        (0, 0)
    }
}

/// The computations on a pair of segments stay in range.
pub open spec fn segment_pair_safe(segment: GridSegment, other: GridSegment) -> bool {
    let (a, b, c, d) = (segment.from, segment.to, other.from, other.to);
    &&& segment_pair_fits(a, b, c, d)
    &&& orientation(a, b, c) == 0 && orientation(a, b, d) == 0 ==> b.x - a.x != i64::MIN && b.y - a.y
        != i64::MIN
}

/// Adds the defect between two segments to `defects`.
pub fn add_segment_pair_defects(defects: &mut StraightGeometryDefects, segment: GridSegment, other: GridSegment)
    requires
        segment.wf(),
        other.wf(),
        segment_pair_safe(segment, other),
        old(defects).proper_crossings < u64::MAX,
        old(defects).collinear_overlaps < u64::MAX,
    ensures
        final(defects).proper_crossings == old(defects).proper_crossings + pair_defect(segment, other).0,
        final(defects).collinear_overlaps == old(defects).collinear_overlaps + pair_defect(segment, other).1,
        final(defects).node_intersections == old(defects).node_intersections,
{
    if !segment.bounding_box_overlaps(other) {
        return;
    }
    if grid_segments_properly_cross(segment.from, segment.to, other.from, other.to) {
        defects.proper_crossings = defects.proper_crossings + 1;
    } else if grid_segments_collinearly_overlap(segment.from, segment.to, other.from, other.to) {
        defects.collinear_overlaps = defects.collinear_overlaps + 1;
    }
}

/// The segment of `edge` passes through `node`, which is not one of its
/// endpoints.
pub open spec fn contains_unrelated_node(edge: Edge, segment: GridSegment, node: ElementId, point: GridPoint) -> bool {
    &&& node != edge.from
    &&& node != edge.to
    &&& segment.min_x <= point.x <= segment.max_x
    &&& segment.min_y <= point.y <= segment.max_y
    &&& strictly_on_segment(segment.from, segment.to, point)
}

/// The computations on a segment and a point stay in range.
pub open spec fn segment_point_safe(segment: GridSegment, point: GridPoint) -> bool {
    let (a, b) = (segment.from, segment.to);
    &&& differences_fit(a, b)
    &&& differences_fit(a, point)
    &&& orientation(a, b, point) == 0 ==> fits_i128(projection(a, b, point)) && fits_i128(length_squared(a, b))
}

/// Whether the segment of `edge` passes through the unrelated `node`.
pub fn segment_contains_unrelated_node(edge: Edge, segment: GridSegment, node: ElementId, point: GridPoint) -> (r: bool)
    requires
        segment.wf(),
        segment_point_safe(segment, point),
    ensures
        r == contains_unrelated_node(edge, segment, node, point),
{
    node != edge.from && node != edge.to && segment.bounding_box_contains(point)
        && grid_point_strictly_on_segment(segment.from, segment.to, point)
}

/// Collinear overlap of two segments does not depend on which one is named
/// first (one direction).
proof fn lemma_collinear_overlap_one_way(a: GridPoint, b: GridPoint, c: GridPoint, d: GridPoint)
    requires
        collinearly_overlap(a, b, c, d),
    ensures
        collinearly_overlap(c, d, a, b),
{
    let ux = b.x - a.x;
    let uy = b.y - a.y;
    let px = c.x - a.x;
    let py = c.y - a.y;
    let qx = d.x - a.x;
    let qy = d.y - a.y;
    let wx = qx - px;
    let wy = qy - py;
    assert(orientation(a, b, c) == ux * py - uy * px);
    assert(orientation(a, b, d) == ux * qy - uy * qx);
    assert(ux != 0 || uy != 0);
    assert(wx != 0 || wy != 0);
    let z = qy * px - qx * py;
    assert(ux * z == 0) by (nonlinear_arith)
        requires
            ux * py - uy * px == 0,
            ux * qy - uy * qx == 0,
            z == qy * px - qx * py,
    ;
    assert(uy * z == 0) by (nonlinear_arith)
        requires
            ux * py - uy * px == 0,
            ux * qy - uy * qx == 0,
            z == qy * px - qx * py,
    ;
    assert(z == 0) by (nonlinear_arith)
        requires
            ux * z == 0,
            uy * z == 0,
            ux != 0 || uy != 0,
    ;
    assert(orientation(c, d, a) == z) by (nonlinear_arith)
        requires
            wx == qx - px,
            wy == qy - py,
            orientation(c, d, a) == wx * (-py) - wy * (-px),
            z == qy * px - qx * py,
    ;
    assert(orientation(c, d, b) == 0) by (nonlinear_arith)
        requires
            wx == qx - px,
            wy == qy - py,
            orientation(c, d, b) == wx * (uy - py) - wy * (ux - px),
            ux * py - uy * px == 0,
            ux * qy - uy * qx == 0,
            z == qy * px - qx * py,
            z == 0,
    ;
    // The two segments are parallel, so both pick the same axis.
    assert(ux * wy == uy * wx) by (nonlinear_arith)
        requires
            wx == qx - px,
            wy == qy - py,
            ux * py - uy * px == 0,
            ux * qy - uy * qx == 0,
    ;
    lemma_abs_compare(ux, uy);
    lemma_abs_compare(wx, wy);
    lemma_parallel_same_axis(ux, uy, wx, wy);
}

/// Comparing absolute values is comparing squares.
proof fn lemma_abs_compare(v: int, w: int)
    ensures
        (abs_int(v) >= abs_int(w)) == (v * v >= w * w),
{
    let av = abs_int(v);
    let aw = abs_int(w);
    assert(av * av == v * v) by (nonlinear_arith)
        requires
            av == v || av == -v,
    ;
    assert(aw * aw == w * w) by (nonlinear_arith)
        requires
            aw == w || aw == -w,
    ;
    assert((av >= aw) == (av * av >= aw * aw)) by (nonlinear_arith)
        requires
            av >= 0,
            aw >= 0,
    ;
}

/// Two nonzero parallel vectors are both at least as wide as tall, or
/// neither is.
proof fn lemma_parallel_same_axis(ux: int, uy: int, wx: int, wy: int)
    requires
        ux * wy == uy * wx,
        ux != 0 || uy != 0,
        wx != 0 || wy != 0,
    ensures
        (ux * ux >= uy * uy) == (wx * wx >= wy * wy),
{
    let a = ux * ux;
    let b = uy * uy;
    let c = wx * wx;
    let d = wy * wy;
    assert(a >= 0 && b >= 0 && c >= 0 && d >= 0) by (nonlinear_arith)
        requires
            a == ux * ux,
            b == uy * uy,
            c == wx * wx,
            d == wy * wy,
    ;
    assert(a + b > 0) by (nonlinear_arith)
        requires
            a == ux * ux,
            b == uy * uy,
            ux != 0 || uy != 0,
    ;
    assert(c + d > 0) by (nonlinear_arith)
        requires
            c == wx * wx,
            d == wy * wy,
            wx != 0 || wy != 0,
    ;
    assert(a * d == b * c) by (nonlinear_arith)
        requires
            a == ux * ux,
            b == uy * uy,
            c == wx * wx,
            d == wy * wy,
            ux * wy == uy * wx,
    ;
    if a >= b && c < d {
        assert(b * c <= a * c) by (nonlinear_arith)
            requires
                b <= a,
                c >= 0,
        ;
        assert(a * c < a * d) by (nonlinear_arith)
            requires
                a > 0,
                c < d,
        ;
    }
    if a < b && c >= d {
        assert(a * d <= a * c) by (nonlinear_arith)
            requires
                d <= c,
                a >= 0,
        ;
        assert(a * c < b * c) by (nonlinear_arith)
            requires
                a < b,
                c > 0,
        ;
    }
}

/// The defect between two segments does not depend on their order.
pub proof fn lemma_pair_defect_symmetric(segment: GridSegment, other: GridSegment)
    ensures
        pair_defect(segment, other) == pair_defect(other, segment),
{
    let (a, b, c, d) = (segment.from, segment.to, other.from, other.to);
    if collinearly_overlap(a, b, c, d) {
        lemma_collinear_overlap_one_way(a, b, c, d);
    }
    if collinearly_overlap(c, d, a, b) {
        lemma_collinear_overlap_one_way(c, d, a, b);
    }
}

/// Every edge joins two of the `n` points.
pub open spec fn edges_within(edges: Seq<Edge>, n: int) -> bool {
    forall|i: int| 0 <= i < edges.len() ==> (#[trigger] edges[i]).from < n && edges[i].to < n
}

/// Both coordinates of `p` are below `2^62` in absolute value, so that every
/// difference and product the tests compute stays in range.
pub open spec fn point_bounded(p: GridPoint) -> bool {
    -0x4000_0000_0000_0000 < p.x < 0x4000_0000_0000_0000 && -0x4000_0000_0000_0000 < p.y
        < 0x4000_0000_0000_0000
}

/// Every point is bounded.
pub open spec fn points_bounded(points: Seq<GridPoint>) -> bool {
    forall|i: int| 0 <= i < points.len() ==> point_bounded(#[trigger] points[i])
}

/// Bounded points keep every test on their segments in range.
proof fn lemma_bounded_safe(a: GridPoint, b: GridPoint, c: GridPoint, d: GridPoint)
    requires
        point_bounded(a),
        point_bounded(b),
        point_bounded(c),
        point_bounded(d),
    ensures
        segment_pair_safe(segment_between(a, b), segment_between(c, d)),
        segment_point_safe(segment_between(a, b), c),
{
    let (ux, uy, px, py) = (b.x - a.x, b.y - a.y, c.x - a.x, c.y - a.y);
    lemma_mul_below(px, ux);
    lemma_mul_below(py, uy);
    lemma_mul_below(ux, ux);
    lemma_mul_below(uy, uy);
}

/// The product of two numbers below `2^63` in absolute value is below `2^126`.
proof fn lemma_mul_below(x: int, y: int)
    requires
        -0x8000_0000_0000_0000 < x < 0x8000_0000_0000_0000,
        -0x8000_0000_0000_0000 < y < 0x8000_0000_0000_0000,
    ensures
        -0x4000_0000_0000_0000_0000_0000_0000_0000 < x * y < 0x4000_0000_0000_0000_0000_0000_0000_0000,
{
    let lim = 0x8000_0000_0000_0000int;
    let ax = abs_int(x);
    let ay = abs_int(y);
    assert(ax * ay < lim * lim) by (nonlinear_arith)
        requires
            0 <= ax < lim,
            0 <= ay < lim,
    ;
    assert(x * y == ax * ay || x * y == -(ax * ay)) by (nonlinear_arith)
        requires
            ax == x || ax == -x,
            ay == y || ay == -y,
    ;
}

/// The segment drawn for edge `i`.
pub open spec fn edge_segment(edges: Seq<Edge>, points: Seq<GridPoint>, i: int) -> GridSegment {
    segment_between(points[edges[i].from as int], points[edges[i].to as int])
}

/// Defect kind `k` (`0`: proper crossing, `1`: collinear overlap) between
/// the segments of edges `i` and `j`; edges sharing an endpoint never count.
pub open spec fn pair_kind(edges: Seq<Edge>, points: Seq<GridPoint>, k: int, i: int, j: int) -> int {
    if share_endpoint(edges[i], edges[j]) {
        0
    } else {
        let d = pair_defect(edge_segment(edges, points, i), edge_segment(edges, points, j));
        if k == 0 {
            d.0
        } else {
            d.1
        }
    }
}

/// The term of the defect count of kind `k` for the pair `i, j`: each
/// unordered pair counts once, as `i < j`.
pub open spec fn pair_term(edges: Seq<Edge>, points: Seq<GridPoint>, k: int) -> spec_fn(int, int) -> int {
    |i: int, j: int|
        if i < j {
            pair_kind(edges, points, k, i, j)
        } else {
            0
        }
}

/// One when the segment of edge `i` passes through the unrelated node `n`.
pub open spec fn node_term(edges: Seq<Edge>, points: Seq<GridPoint>) -> spec_fn(int, int) -> int {
    |i: int, n: int|
        if contains_unrelated_node(edges[i], edge_segment(edges, points, i), n as usize, points[n]) {
            1
        } else {
            0
        }
}

/// The number of pairs of segments that cross properly.
pub open spec fn crossing_total(edges: Seq<Edge>, points: Seq<GridPoint>) -> int {
    grid_sum(pair_term(edges, points, 0), edges.len() as int, edges.len() as int)
}

/// The number of pairs of collinear segments that overlap.
pub open spec fn overlap_total(edges: Seq<Edge>, points: Seq<GridPoint>) -> int {
    grid_sum(pair_term(edges, points, 1), edges.len() as int, edges.len() as int)
}

/// The number of (segment, unrelated node on it) incidences.
pub open spec fn node_total(edges: Seq<Edge>, points: Seq<GridPoint>) -> int {
    grid_sum(node_term(edges, points), edges.len() as int, points.len() as int)
}

/// An endpoint of `edge` is among `moved`.
pub open spec fn edge_moves(edge: Edge, moved: Seq<usize>) -> bool {
    moved.contains(edge.from) || moved.contains(edge.to)
}

/// The pair term of kind `k` as the incremental count takes it: every pair
/// with a moving edge, once, from the side of a moving edge.
pub open spec fn contribution_pair_term(
    edges: Seq<Edge>,
    points: Seq<GridPoint>,
    moved: Seq<usize>,
    k: int,
) -> spec_fn(int, int) -> int {
    |i: int, j: int|
        if edge_moves(edges[i], moved) && j != i && !(edge_moves(edges[j], moved) && j < i) {
            pair_kind(edges, points, k, i, j)
        } else {
            0
        }
}

/// The node incidences that can change when `moved` move: every node on a
/// moving edge, and the moving nodes on the other edges.
pub open spec fn node_contribution(
    edges: Seq<Edge>,
    points: Seq<GridPoint>,
    moved: Seq<usize>,
    rows: int,
) -> int
    decreases rows,
{
    if rows <= 0 {
        0
    } else {
        node_contribution(edges, points, moved, rows - 1) + if edge_moves(edges[rows - 1], moved) {
            row_sum(node_term(edges, points), rows - 1, points.len() as int)
        } else {
            pick_sum(node_term(edges, points), rows - 1, moved, moved.len() as int)
        }
    }
}

/// The crossings counted by the incremental count.
pub open spec fn crossing_contribution(edges: Seq<Edge>, points: Seq<GridPoint>, moved: Seq<usize>) -> int {
    grid_sum(contribution_pair_term(edges, points, moved, 0), edges.len() as int, edges.len() as int)
}

/// The overlaps counted by the incremental count.
pub open spec fn overlap_contribution(edges: Seq<Edge>, points: Seq<GridPoint>, moved: Seq<usize>) -> int {
    grid_sum(contribution_pair_term(edges, points, moved, 1), edges.len() as int, edges.len() as int)
}

/// The segments of all edges, in order.
fn edge_segments(edges: &[Edge], points: &[GridPoint]) -> (r: Vec<GridSegment>)
    requires
        edges_within(edges@, points@.len() as int),
    ensures
        r@.len() == edges@.len(),
        forall|i: int| 0 <= i < edges@.len() ==> #[trigger] r@[i] == edge_segment(edges@, points@, i),
        forall|i: int| 0 <= i < edges@.len() ==> (#[trigger] r@[i]).wf(),
{
    let mut segments: Vec<GridSegment> = Vec::new();
    let mut i: usize = 0;
    while i < edges.len()
        invariant
            i <= edges@.len(),
            edges_within(edges@, points@.len() as int),
            segments@.len() == i,
            forall|w: int| 0 <= w < i ==> #[trigger] segments@[w] == edge_segment(edges@, points@, w),
            forall|w: int| 0 <= w < i ==> (#[trigger] segments@[w]).wf(),
        decreases edges@.len() - i,
    {
        let edge = edges[i];
        segments.push(GridSegment::new(points[edge.from], points[edge.to]));
        i += 1;
    }
    segments
}

/// The defect terms are zero or one.
proof fn lemma_terms_are_bits(edges: Seq<Edge>, points: Seq<GridPoint>, moved: Seq<usize>)
    ensures
        forall|k: int, i: int, j: int| 0 <= #[trigger] pair_kind(edges, points, k, i, j) <= 1,
        forall|i: int, n: int| 0 <= #[trigger] node_term(edges, points)(i, n) <= 1,
{
}

/// Counts the proper crossings, node intersections and collinear overlaps of
/// the straight segments of `edges` between `points`.
pub fn straight_geometry_defects(edges: &[Edge], points: &[GridPoint]) -> (r: StraightGeometryDefects)
    requires
        edges_within(edges@, points@.len() as int),
        points_bounded(points@),
        edges@.len() <= u32::MAX,
        points@.len() <= u32::MAX,
    ensures
        r.proper_crossings == crossing_total(edges@, points@),
        r.node_intersections == node_total(edges@, points@),
        r.collinear_overlaps == overlap_total(edges@, points@),
{
    let ghost e = edges@;
    let ghost p = points@;
    let segments = edge_segments(edges, points);
    let m = edges.len();
    let n = points.len();
    let mut defects = StraightGeometryDefects { proper_crossings: 0, node_intersections: 0, collinear_overlaps: 0 };
    proof {
        lemma_terms_are_bits(e, p, Seq::empty());
    }
    let mut index: usize = 0;
    while index < m
        invariant
            e == edges@,
            p == points@,
            m == e.len(),
            n == p.len(),
            index <= m,
            m <= u32::MAX,
            edges_within(e, n as int),
            points_bounded(p),
            segments@.len() == m,
            forall|i: int| 0 <= i < m ==> #[trigger] segments@[i] == edge_segment(e, p, i),
            forall|i: int| 0 <= i < m ==> (#[trigger] segments@[i]).wf(),
            forall|k: int, i: int, j: int| 0 <= #[trigger] pair_kind(e, p, k, i, j) <= 1,
            defects.proper_crossings == grid_sum(pair_term(e, p, 0), index as int, m as int),
            defects.collinear_overlaps == grid_sum(pair_term(e, p, 1), index as int, m as int),
            defects.node_intersections == 0,
        decreases m - index,
    {
        let mut other: usize = index + 1;
        proof {
            lemma_row_zero(pair_term(e, p, 0), index as int, other as int);
            lemma_row_zero(pair_term(e, p, 1), index as int, other as int);
        }
        while other < m
            invariant
                e == edges@,
                p == points@,
                m == e.len(),
                n == p.len(),
                index < m,
                index + 1 <= other <= m,
                m <= u32::MAX,
                edges_within(e, n as int),
                points_bounded(p),
                segments@.len() == m,
                forall|i: int| 0 <= i < m ==> #[trigger] segments@[i] == edge_segment(e, p, i),
                forall|i: int| 0 <= i < m ==> (#[trigger] segments@[i]).wf(),
                forall|k: int, i: int, j: int| 0 <= #[trigger] pair_kind(e, p, k, i, j) <= 1,
                defects.proper_crossings == grid_sum(pair_term(e, p, 0), index as int, m as int) + row_sum(
                    pair_term(e, p, 0),
                    index as int,
                    other as int,
                ),
                defects.collinear_overlaps == grid_sum(pair_term(e, p, 1), index as int, m as int) + row_sum(
                    pair_term(e, p, 1),
                    index as int,
                    other as int,
                ),
                defects.node_intersections == 0,
            decreases m - other,
        {
            proof {
                let (m_i, index_i, other_i) = (m as int, index as int, other as int);
                lemma_grid_bounded(pair_term(e, p, 0), index_i, m_i);
                lemma_grid_bounded(pair_term(e, p, 1), index_i, m_i);
                lemma_row_bounded(pair_term(e, p, 0), index_i, other_i);
                lemma_row_bounded(pair_term(e, p, 1), index_i, other_i);
                assert(index_i * m_i + m_i <= m_i * m_i) by (nonlinear_arith)
                    requires
                        0 <= index_i < m_i,
                ;
                assert(m_i * m_i <= 0xffff_ffff * 0xffff_ffff) by (nonlinear_arith)
                    requires
                        0 <= m_i <= 0xffff_ffff,
                ;
            }
            if !edges_share_endpoint(edges[index], edges[other]) {
                proof {
                    let (ei, eo) = (e[index as int], e[other as int]);
                    lemma_bounded_safe(p[ei.from as int], p[ei.to as int], p[eo.from as int], p[eo.to as int]);
                }
                add_segment_pair_defects(&mut defects, segments[index], segments[other]);
            }
            other += 1;
        }
        index += 1;
    }
    let mut index: usize = 0;
    while index < m
        invariant
            e == edges@,
            p == points@,
            m == e.len(),
            n == p.len(),
            index <= m,
            m <= u32::MAX,
            n <= u32::MAX,
            edges_within(e, n as int),
            points_bounded(p),
            segments@.len() == m,
            forall|i: int| 0 <= i < m ==> #[trigger] segments@[i] == edge_segment(e, p, i),
            forall|i: int| 0 <= i < m ==> (#[trigger] segments@[i]).wf(),
            forall|i: int, v: int| 0 <= #[trigger] node_term(e, p)(i, v) <= 1,
            defects.proper_crossings == crossing_total(e, p),
            defects.collinear_overlaps == overlap_total(e, p),
            defects.node_intersections == grid_sum(node_term(e, p), index as int, n as int),
        decreases m - index,
    {
        let mut node: usize = 0;
        while node < n
            invariant
                e == edges@,
                p == points@,
                m == e.len(),
                n == p.len(),
                index < m,
                node <= n,
                m <= u32::MAX,
                n <= u32::MAX,
                edges_within(e, n as int),
                points_bounded(p),
                segments@.len() == m,
                forall|i: int| 0 <= i < m ==> #[trigger] segments@[i] == edge_segment(e, p, i),
                forall|i: int| 0 <= i < m ==> (#[trigger] segments@[i]).wf(),
                forall|i: int, v: int| 0 <= #[trigger] node_term(e, p)(i, v) <= 1,
                defects.proper_crossings == crossing_total(e, p),
                defects.collinear_overlaps == overlap_total(e, p),
                defects.node_intersections == grid_sum(node_term(e, p), index as int, n as int) + row_sum(
                    node_term(e, p),
                    index as int,
                    node as int,
                ),
            decreases n - node,
        {
            proof {
                let (m_i, n_i, index_i, node_i) = (m as int, n as int, index as int, node as int);
                lemma_grid_bounded(node_term(e, p), index_i, n_i);
                lemma_row_bounded(node_term(e, p), index_i, node_i);
                assert(index_i * n_i + n_i <= m_i * n_i) by (nonlinear_arith)
                    requires
                        0 <= index_i < m_i,
                        0 <= n_i,
                ;
                assert(m_i * n_i <= 0xffff_ffff * 0xffff_ffff) by (nonlinear_arith)
                    requires
                        0 <= m_i <= 0xffff_ffff,
                        0 <= n_i <= 0xffff_ffff,
                ;
                let ei = e[index_i];
                lemma_bounded_safe(p[ei.from as int], p[ei.to as int], p[node_i], p[node_i]);
            }
            if segment_contains_unrelated_node(edges[index], segments[index], node, points[node]) {
                defects.node_intersections = defects.node_intersections + 1;
            }
            node += 1;
        }
        index += 1;
    }
    defects
}

/// Whether each edge has an endpoint among `moved`.
fn moving_edges(edges: &[Edge], moved: &[ElementId]) -> (r: Vec<bool>)
    ensures
        r@.len() == edges@.len(),
        forall|i: int| 0 <= i < edges@.len() ==> #[trigger] r@[i] == edge_moves(edges@[i], moved@),
{
    let mut affected: Vec<bool> = Vec::new();
    let mut i: usize = 0;
    while i < edges.len()
        invariant
            i <= edges@.len(),
            affected@.len() == i,
            forall|w: int| 0 <= w < i ==> #[trigger] affected@[w] == edge_moves(edges@[w], moved@),
        decreases edges@.len() - i,
    {
        let edge = edges[i];
        let mut found_from = false;
        let mut found_to = false;
        let mut t: usize = 0;
        while t < moved.len()
            invariant
                t <= moved@.len(),
                found_from == (exists|w: int| 0 <= w < t && moved@[w] == edge.from),
                found_to == (exists|w: int| 0 <= w < t && moved@[w] == edge.to),
            decreases moved@.len() - t,
        {
            if moved[t] == edge.from {
                found_from = true;
            }
            if moved[t] == edge.to {
                found_to = true;
            }
            t += 1;
        }
        affected.push(found_from || found_to);
        i += 1;
    }
    affected
}

/// Counts exactly those defects whose truth can change when
/// `moved_vertices` move: every pair with a segment at a moving vertex, every
/// node on such a segment, and the moving nodes on the other segments.
pub fn straight_geometry_contribution(
    edges: &[Edge],
    points: &[GridPoint],
    moved_vertices: &[ElementId],
) -> (r: StraightGeometryDefects)
    requires
        edges_within(edges@, points@.len() as int),
        points_bounded(points@),
        forall|t: int| 0 <= t < moved_vertices@.len() ==> #[trigger] moved_vertices@[t] < points@.len(),
        edges@.len() <= u32::MAX,
        points@.len() <= u32::MAX,
        moved_vertices@.len() <= u32::MAX,
    ensures
        r.proper_crossings == crossing_contribution(edges@, points@, moved_vertices@),
        r.node_intersections == node_contribution(edges@, points@, moved_vertices@, edges@.len() as int),
        r.collinear_overlaps == overlap_contribution(edges@, points@, moved_vertices@),
{
    let ghost e = edges@;
    let ghost p = points@;
    let ghost mv = moved_vertices@;
    let segments = edge_segments(edges, points);
    let affected = moving_edges(edges, moved_vertices);
    let m = edges.len();
    let n = points.len();
    let mut defects = StraightGeometryDefects { proper_crossings: 0, node_intersections: 0, collinear_overlaps: 0 };
    proof {
        lemma_terms_are_bits(e, p, mv);
    }
    let mut index: usize = 0;
    while index < m
        invariant
            e == edges@,
            p == points@,
            mv == moved_vertices@,
            m == e.len(),
            n == p.len(),
            index <= m,
            m <= u32::MAX,
            edges_within(e, n as int),
            points_bounded(p),
            segments@.len() == m,
            affected@.len() == m,
            forall|i: int| 0 <= i < m ==> #[trigger] affected@[i] == edge_moves(e[i], mv),
            forall|i: int| 0 <= i < m ==> #[trigger] segments@[i] == edge_segment(e, p, i),
            forall|i: int| 0 <= i < m ==> (#[trigger] segments@[i]).wf(),
            forall|k: int, i: int, j: int| 0 <= #[trigger] pair_kind(e, p, k, i, j) <= 1,
            defects.proper_crossings == grid_sum(contribution_pair_term(e, p, mv, 0), index as int, m as int),
            defects.collinear_overlaps == grid_sum(contribution_pair_term(e, p, mv, 1), index as int, m as int),
            defects.node_intersections == 0,
        decreases m - index,
    {
        if affected[index] {
            let mut other: usize = 0;
            while other < m
                invariant
                    e == edges@,
                    p == points@,
                    mv == moved_vertices@,
                    m == e.len(),
                    n == p.len(),
                    index < m,
                    other <= m,
                    m <= u32::MAX,
                    edges_within(e, n as int),
                    points_bounded(p),
                    segments@.len() == m,
                    affected@.len() == m,
                    affected@[index as int],
                    forall|i: int| 0 <= i < m ==> #[trigger] affected@[i] == edge_moves(e[i], mv),
                    forall|i: int| 0 <= i < m ==> #[trigger] segments@[i] == edge_segment(e, p, i),
                    forall|i: int| 0 <= i < m ==> (#[trigger] segments@[i]).wf(),
                    forall|k: int, i: int, j: int| 0 <= #[trigger] pair_kind(e, p, k, i, j) <= 1,
                    defects.proper_crossings == grid_sum(contribution_pair_term(e, p, mv, 0), index as int, m as int)
                        + row_sum(contribution_pair_term(e, p, mv, 0), index as int, other as int),
                    defects.collinear_overlaps == grid_sum(contribution_pair_term(e, p, mv, 1), index as int, m as int)
                        + row_sum(contribution_pair_term(e, p, mv, 1), index as int, other as int),
                    defects.node_intersections == 0,
                decreases m - other,
            {
                proof {
                    let (m_i, index_i, other_i) = (m as int, index as int, other as int);
                    lemma_grid_bounded(contribution_pair_term(e, p, mv, 0), index_i, m_i);
                    lemma_grid_bounded(contribution_pair_term(e, p, mv, 1), index_i, m_i);
                    lemma_row_bounded(contribution_pair_term(e, p, mv, 0), index_i, other_i);
                    lemma_row_bounded(contribution_pair_term(e, p, mv, 1), index_i, other_i);
                    assert(index_i * m_i + m_i <= m_i * m_i) by (nonlinear_arith)
                        requires
                            0 <= index_i < m_i,
                    ;
                    assert(m_i * m_i <= 0xffff_ffff * 0xffff_ffff) by (nonlinear_arith)
                        requires
                            0 <= m_i <= 0xffff_ffff,
                    ;
                }
                if !(other == index || (affected[other] && other < index) || edges_share_endpoint(
                    edges[index],
                    edges[other],
                )) {
                    proof {
                        let (ei, eo) = (e[index as int], e[other as int]);
                        lemma_bounded_safe(p[ei.from as int], p[ei.to as int], p[eo.from as int], p[eo.to as int]);
                    }
                    add_segment_pair_defects(&mut defects, segments[index], segments[other]);
                }
                other += 1;
            }
        } else {
            proof {
                lemma_row_zero(contribution_pair_term(e, p, mv, 0), index as int, m as int);
                lemma_row_zero(contribution_pair_term(e, p, mv, 1), index as int, m as int);
            }
        }
        index += 1;
    }
    let mut index: usize = 0;
    while index < m
        invariant
            e == edges@,
            p == points@,
            mv == moved_vertices@,
            m == e.len(),
            n == p.len(),
            index <= m,
            m <= u32::MAX,
            n <= u32::MAX,
            mv.len() <= u32::MAX,
            forall|t: int| 0 <= t < mv.len() ==> #[trigger] mv[t] < n,
            edges_within(e, n as int),
            points_bounded(p),
            segments@.len() == m,
            affected@.len() == m,
            forall|i: int| 0 <= i < m ==> #[trigger] affected@[i] == edge_moves(e[i], mv),
            forall|i: int| 0 <= i < m ==> #[trigger] segments@[i] == edge_segment(e, p, i),
            forall|i: int| 0 <= i < m ==> (#[trigger] segments@[i]).wf(),
            forall|i: int, v: int| 0 <= #[trigger] node_term(e, p)(i, v) <= 1,
            defects.proper_crossings == crossing_contribution(e, p, mv),
            defects.collinear_overlaps == overlap_contribution(e, p, mv),
            defects.node_intersections == node_contribution(e, p, mv, index as int),
            defects.node_intersections <= index * u32::MAX,
        decreases m - index,
    {
        let ghost before = defects.node_intersections;
        if affected[index] {
            let mut node: usize = 0;
            while node < n
                invariant
                    e == edges@,
                    p == points@,
                    m == e.len(),
                    n == p.len(),
                    index < m,
                    node <= n,
                    m <= u32::MAX,
                    n <= u32::MAX,
                    before <= index * u32::MAX,
                    edges_within(e, n as int),
                    points_bounded(p),
                    segments@.len() == m,
                    forall|i: int| 0 <= i < m ==> #[trigger] segments@[i] == edge_segment(e, p, i),
                    forall|i: int| 0 <= i < m ==> (#[trigger] segments@[i]).wf(),
                    forall|i: int, v: int| 0 <= #[trigger] node_term(e, p)(i, v) <= 1,
                    defects.proper_crossings == crossing_contribution(e, p, mv),
                    defects.collinear_overlaps == overlap_contribution(e, p, mv),
                    defects.node_intersections == before + row_sum(node_term(e, p), index as int, node as int),
                decreases n - node,
            {
                proof {
                    let (index_i, node_i) = (index as int, node as int);
                    lemma_row_bounded(node_term(e, p), index_i, node_i);
                    assert(index_i * 0xffff_ffff + 0xffff_ffff <= 0xffff_ffff * 0xffff_ffff) by (nonlinear_arith)
                        requires
                            0 <= index_i < 0xffff_ffff,
                    ;
                    let ei = e[index_i];
                    lemma_bounded_safe(p[ei.from as int], p[ei.to as int], p[node_i], p[node_i]);
                }
                if segment_contains_unrelated_node(edges[index], segments[index], node, points[node]) {
                    defects.node_intersections = defects.node_intersections + 1;
                }
                node += 1;
            }
            proof {
                lemma_row_bounded(node_term(e, p), index as int, n as int);
            }
        } else {
            let mut t: usize = 0;
            while t < moved_vertices.len()
                invariant
                    e == edges@,
                    p == points@,
                    mv == moved_vertices@,
                    m == e.len(),
                    n == p.len(),
                    index < m,
                    t <= mv.len(),
                    m <= u32::MAX,
                    mv.len() <= u32::MAX,
                    before <= index * u32::MAX,
                    forall|w: int| 0 <= w < mv.len() ==> #[trigger] mv[w] < n,
                    edges_within(e, n as int),
                    points_bounded(p),
                    segments@.len() == m,
                    forall|i: int| 0 <= i < m ==> #[trigger] segments@[i] == edge_segment(e, p, i),
                    forall|i: int| 0 <= i < m ==> (#[trigger] segments@[i]).wf(),
                    forall|i: int, v: int| 0 <= #[trigger] node_term(e, p)(i, v) <= 1,
                    defects.proper_crossings == crossing_contribution(e, p, mv),
                    defects.collinear_overlaps == overlap_contribution(e, p, mv),
                    defects.node_intersections == before + pick_sum(node_term(e, p), index as int, mv, t as int),
                decreases mv.len() - t,
            {
                proof {
                    let (index_i, t_i) = (index as int, t as int);
                    lemma_pick_bounded(node_term(e, p), index_i, mv, t_i);
                    assert(index_i * 0xffff_ffff + 0xffff_ffff <= 0xffff_ffff * 0xffff_ffff) by (nonlinear_arith)
                        requires
                            0 <= index_i < 0xffff_ffff,
                    ;
                    let ei = e[index_i];
                    let v = mv[t_i] as int;
                    lemma_bounded_safe(p[ei.from as int], p[ei.to as int], p[v], p[v]);
                }
                let node = moved_vertices[t];
                if segment_contains_unrelated_node(edges[index], segments[index], node, points[node]) {
                    defects.node_intersections = defects.node_intersections + 1;
                }
                t += 1;
            }
            proof {
                lemma_pick_bounded(node_term(e, p), index as int, mv, mv.len() as int);
            }
        }
        proof {
            assert(index * u32::MAX + u32::MAX == (index + 1) * u32::MAX) by (nonlinear_arith);
        }
        index += 1;
    }
    defects
}

/// The pair terms of kind `k` between edges that no moving vertex touches.
pub open spec fn rest_pair_term(edges: Seq<Edge>, points: Seq<GridPoint>, moved: Seq<usize>, k: int) -> spec_fn(
    int,
    int,
) -> int {
    |i: int, j: int|
        if i < j && !edge_moves(edges[i], moved) && !edge_moves(edges[j], moved) {
            pair_kind(edges, points, k, i, j)
        } else {
            0
        }
}

/// The node terms between an edge and a node that are both left in place.
pub open spec fn rest_node_term(edges: Seq<Edge>, points: Seq<GridPoint>, moved: Seq<usize>) -> spec_fn(
    int,
    int,
) -> int {
    |i: int, n: int|
        if !edge_moves(edges[i], moved) && !moved.contains(n as usize) {
            node_term(edges, points)(i, n)
        } else {
            0
        }
}

/// The pair count of kind `k` is the incremental count plus the pairs that
/// no moving vertex touches.
proof fn lemma_pair_split(edges: Seq<Edge>, points: Seq<GridPoint>, moved: Seq<usize>, k: int)
    ensures
        grid_sum(pair_term(edges, points, k), edges.len() as int, edges.len() as int) == grid_sum(
            contribution_pair_term(edges, points, moved, k),
            edges.len() as int,
            edges.len() as int,
        ) + grid_sum(rest_pair_term(edges, points, moved, k), edges.len() as int, edges.len() as int),
{
    let m = edges.len() as int;
    let pk = |i: int, j: int| pair_kind(edges, points, k, i, j);
    let ahead = |i: int, j: int|
        if edge_moves(edges[i], moved) && i < j {
            pk(i, j)
        } else {
            0
        };
    let behind = |i: int, j: int|
        if edge_moves(edges[i], moved) && j < i && !edge_moves(edges[j], moved) {
            pk(i, j)
        } else {
            0
        };
    let behind_t = |i: int, j: int|
        if edge_moves(edges[j], moved) && i < j && !edge_moves(edges[i], moved) {
            pk(j, i)
        } else {
            0
        };
    let both = |i: int, j: int| ahead(i, j) + behind_t(i, j);
    let total = pair_term(edges, points, k);
    let contribution = contribution_pair_term(edges, points, moved, k);
    let rest = rest_pair_term(edges, points, moved, k);
    assert forall|i: int, j: int| 0 <= i < m && 0 <= j < m implies #[trigger] contribution(i, j) == ahead(i, j)
        + behind(i, j) by {}
    lemma_grid_add(ahead, behind, contribution, m, m);
    assert forall|i: int, j: int| 0 <= i < m && 0 <= j < m implies #[trigger] total(i, j) == both(i, j) + rest(
        i,
        j,
    ) by {
        lemma_pair_defect_symmetric(edge_segment(edges, points, i), edge_segment(edges, points, j));
    }
    assert forall|i: int, j: int| 0 <= i < m && 0 <= j < m implies #[trigger] both(i, j) == ahead(i, j) + behind_t(
        i,
        j,
    ) by {}
    lemma_grid_add(ahead, behind_t, both, m, m);
    lemma_grid_add(both, rest, total, m, m);
    assert forall|i: int, j: int| 0 <= i < m && 0 <= j < m implies #[trigger] behind_t(i, j) == behind(j, i) by {}
    lemma_grid_transpose(behind, behind_t, m);
}

/// The node count is the incremental count plus the incidences between an
/// edge and a node that are both left in place.
proof fn lemma_node_split(edges: Seq<Edge>, points: Seq<GridPoint>, moved: Seq<usize>, rows: int)
    requires
        0 <= rows <= edges.len(),
        points.len() <= usize::MAX,
        distinct_entries(moved),
        forall|t: int| 0 <= t < moved.len() ==> #[trigger] moved[t] < points.len(),
    ensures
        grid_sum(node_term(edges, points), rows, points.len() as int) == node_contribution(
            edges,
            points,
            moved,
            rows,
        ) + grid_sum(rest_node_term(edges, points, moved), rows, points.len() as int),
    decreases rows,
{
    if rows > 0 {
        let i = rows - 1;
        let n = points.len() as int;
        let term = node_term(edges, points);
        let rest = rest_node_term(edges, points, moved);
        lemma_node_split(edges, points, moved, i);
        if edge_moves(edges[i], moved) {
            lemma_row_zero(rest, i, n);
        } else {
            let picked = |a: int, v: int|
                if moved.contains(v as usize) {
                    term(a, v)
                } else {
                    0
                };
            lemma_pick_is_restricted_row(term, picked, i, moved, n);
            assert forall|j: int| 0 <= j < n implies #[trigger] term(i, j) == picked(i, j) + rest(i, j) by {}
            lemma_row_add(picked, rest, term, i, n);
        }
    }
}

/// Moving the listed vertices changes the whole defect count exactly by the
/// change in the incremental count: the defects that the incremental count
/// leaves out are the same before and after the move.  (The listed vertices
/// are distinct; every other vertex keeps its point.)
pub proof fn lemma_contribution_isolates_moves(
    edges: Seq<Edge>,
    before: Seq<GridPoint>,
    after: Seq<GridPoint>,
    moved: Seq<usize>,
)
    requires
        before.len() == after.len(),
        before.len() <= usize::MAX,
        edges_within(edges, before.len() as int),
        distinct_entries(moved),
        forall|t: int| 0 <= t < moved.len() ==> #[trigger] moved[t] < before.len(),
        forall|v: int|
            0 <= v < before.len() && !moved.contains(v as usize) ==> #[trigger] before[v] == after[v],
    ensures
        crossing_total(edges, before) - crossing_contribution(edges, before, moved) == crossing_total(edges, after)
            - crossing_contribution(edges, after, moved),
        overlap_total(edges, before) - overlap_contribution(edges, before, moved) == overlap_total(edges, after)
            - overlap_contribution(edges, after, moved),
        node_total(edges, before) - node_contribution(edges, before, moved, edges.len() as int) == node_total(
            edges,
            after,
        ) - node_contribution(edges, after, moved, edges.len() as int),
{
    let m = edges.len() as int;
    let n = before.len() as int;
    assert forall|i: int| 0 <= i < m && !edge_moves(edges[i], moved) implies edge_segment(edges, before, i)
        == #[trigger] edge_segment(edges, after, i) by {
        assert(before[edges[i].from as int] == after[edges[i].from as int]);
        assert(before[edges[i].to as int] == after[edges[i].to as int]);
    }
    lemma_pair_split(edges, before, moved, 0);
    lemma_pair_split(edges, after, moved, 0);
    lemma_pair_split(edges, before, moved, 1);
    lemma_pair_split(edges, after, moved, 1);
    lemma_grid_ext(rest_pair_term(edges, before, moved, 0), rest_pair_term(edges, after, moved, 0), m, m);
    lemma_grid_ext(rest_pair_term(edges, before, moved, 1), rest_pair_term(edges, after, moved, 1), m, m);
    lemma_node_split(edges, before, moved, m);
    lemma_node_split(edges, after, moved, m);
    assert forall|i: int, v: int| 0 <= i < m && 0 <= v < n implies #[trigger] rest_node_term(edges, before, moved)(
        i,
        v,
    ) == rest_node_term(edges, after, moved)(i, v) by {
        if !edge_moves(edges[i], moved) && !moved.contains(v as usize) {
            assert(edge_segment(edges, before, i) == edge_segment(edges, after, i));
            assert(before[v] == after[v]);
        }
    }
    lemma_grid_ext(rest_node_term(edges, before, moved), rest_node_term(edges, after, moved), m, n);
}

/// The incremental count never exceeds the whole count.
pub proof fn lemma_contribution_within_total(edges: Seq<Edge>, points: Seq<GridPoint>, moved: Seq<usize>)
    requires
        points.len() <= usize::MAX,
        edges_within(edges, points.len() as int),
        distinct_entries(moved),
        forall|t: int| 0 <= t < moved.len() ==> #[trigger] moved[t] < points.len(),
    ensures
        0 <= crossing_contribution(edges, points, moved) <= crossing_total(edges, points),
        0 <= overlap_contribution(edges, points, moved) <= overlap_total(edges, points),
        0 <= node_contribution(edges, points, moved, edges.len() as int) <= node_total(edges, points),
{
    let m = edges.len() as int;
    let n = points.len() as int;
    lemma_terms_are_bits(edges, points, moved);
    lemma_pair_split(edges, points, moved, 0);
    lemma_pair_split(edges, points, moved, 1);
    lemma_node_split(edges, points, moved, m);
    lemma_grid_bounded(rest_pair_term(edges, points, moved, 0), m, m);
    lemma_grid_bounded(rest_pair_term(edges, points, moved, 1), m, m);
    lemma_grid_bounded(contribution_pair_term(edges, points, moved, 0), m, m);
    lemma_grid_bounded(contribution_pair_term(edges, points, moved, 1), m, m);
    lemma_grid_bounded(rest_node_term(edges, points, moved), m, n);
    lemma_node_contribution_nonnegative(edges, points, moved, m);
}

/// The node part of the incremental count is not negative.
proof fn lemma_node_contribution_nonnegative(edges: Seq<Edge>, points: Seq<GridPoint>, moved: Seq<usize>, rows: int)
    ensures
        node_contribution(edges, points, moved, rows) >= 0,
    decreases rows,
{
    if rows > 0 {
        lemma_node_contribution_nonnegative(edges, points, moved, rows - 1);
        lemma_terms_are_bits(edges, points, moved);
        lemma_row_bounded(node_term(edges, points), rows - 1, points.len() as int);
        lemma_pick_bounded(node_term(edges, points), rows - 1, moved, moved.len() as int);
    }
}

/// The whole counts fit in a `u64`.
pub proof fn lemma_totals_fit(edges: Seq<Edge>, points: Seq<GridPoint>)
    requires
        edges.len() <= u32::MAX,
        points.len() <= u32::MAX,
    ensures
        0 <= crossing_total(edges, points) <= u64::MAX,
        0 <= overlap_total(edges, points) <= u64::MAX,
        0 <= node_total(edges, points) <= u64::MAX,
{
    let m = edges.len() as int;
    let n = points.len() as int;
    lemma_terms_are_bits(edges, points, Seq::empty());
    lemma_grid_bounded(pair_term(edges, points, 0), m, m);
    lemma_grid_bounded(pair_term(edges, points, 1), m, m);
    lemma_grid_bounded(node_term(edges, points), m, n);
    assert(m * m <= u64::MAX && m * n <= u64::MAX) by (nonlinear_arith)
        requires
            0 <= m <= 0xffff_ffff,
            0 <= n <= 0xffff_ffff,
    ;
}

/// `a` has fewer defects than `b`: fewer crossings, or as many and fewer
/// node intersections, or as many of both and fewer overlaps.
pub open spec fn fewer_defects(a: StraightGeometryDefects, b: StraightGeometryDefects) -> bool {
    a.proper_crossings < b.proper_crossings || (a.proper_crossings == b.proper_crossings && (a.node_intersections
        < b.node_intersections || (a.node_intersections == b.node_intersections && a.collinear_overlaps
        < b.collinear_overlaps)))
}

impl StraightGeometryDefects {
    /// Whether `self` has fewer defects than `other`, in the order of the
    /// fields.
    pub fn is_fewer_than(&self, other: &Self) -> (r: bool)
        ensures
            r == fewer_defects(*self, *other),
    {
        self.proper_crossings < other.proper_crossings || (self.proper_crossings == other.proper_crossings && (
        self.node_intersections < other.node_intersections || (self.node_intersections
            == other.node_intersections && self.collinear_overlaps < other.collinear_overlaps)))
    }
}

} // verus!
