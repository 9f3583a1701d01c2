//! Segments and boxes on the integer lattice, as the `geo` crate sees them.
//!
//! The predicates are stated as `geo` computes them, in exact integer
//! arithmetic; the one on the interior of a polygon has a name only.

use crate::problem::{greater, lesser, Point};
use vstd::prelude::*;

verus! {

/// The largest magnitude of a coordinate on which the predicates below are
/// computed: with it, no product of two coordinate differences leaves 64
/// bits.
pub const COORD_LIMIT: i64 = 0x2000_0000;

/// Both coordinates of the point are within `COORD_LIMIT` of zero.
pub open spec fn in_reach(p: Point) -> bool {
    &&& -COORD_LIMIT <= p.0 <= COORD_LIMIT
    &&& -COORD_LIMIT <= p.1 <= COORD_LIMIT
}

/// Every point of the sequence is in reach.
pub open spec fn all_in_reach(points: Seq<Point>) -> bool {
    forall|i: int| 0 <= i < points.len() ==> in_reach(#[trigger] points[i])
}

/// Twice the signed area of the triangle `p`, `q`, `r`: zero where the three
/// points lie on one line.
pub open spec fn turn(p: Point, q: Point, r: Point) -> int {
    (q.0 - p.0) * (r.1 - q.1) - (q.1 - p.1) * (r.0 - q.0)
}

/// The number lies between the two bounds, whichever of them is the smaller.
pub open spec fn between(value: int, bound_1: int, bound_2: int) -> bool {
    if bound_1 < bound_2 {
        bound_1 <= value <= bound_2
    } else {
        bound_2 <= value <= bound_1
    }
}

/// Whether the segment from `from` to `to` has `point` on it: the three
/// points lie on one line, and `point` in the box that the two ends span.
pub open spec fn segment_holds_point(from: Point, to: Point, point: Point) -> bool {
    &&& turn(from, to, point) == 0
    &&& between(point.0 as int, from.0 as int, to.0 as int)
    &&& between(point.1 as int, from.1 as int, to.1 as int)
}

/// On which side of the line from `p` to `q` the point `r` lies: 1 where the
/// turn is to the left, -1 where it is to the right, 0 on the line.
pub open spec fn side(p: Point, q: Point, r: Point) -> int {
    if turn(p, q, r) > 0 {
        1
    } else if turn(p, q, r) < 0 {
        -1
    } else {
        0
    }
}

/// The point lies in the box that the two corners span, border included.
pub open spec fn in_box(point: Point, corner_1: Point, corner_2: Point) -> bool {
    &&& between(point.0 as int, corner_1.0 as int, corner_2.0 as int)
    &&& between(point.1 as int, corner_1.1 as int, corner_2.1 as int)
}

/// Whether the segment from `a_from` to `a_to` and the segment from `b_from`
/// to `b_to` have a point in common.
///
/// A first segment without length meets the second where the second holds
/// its point. Else, where the ends of the second lie on different sides of
/// the first, the two meet where the ends of the first lie on different
/// sides of the second too; where both ends of the second lie on the line
/// of the first, they meet where an end of one lies in the box of the other;
/// and where both lie on one side, they do not meet.
pub open spec fn segments_meet(a_from: Point, a_to: Point, b_from: Point, b_to: Point) -> bool {
    if a_from == a_to {
        segment_holds_point(b_from, b_to, a_from)
    } else if side(a_from, a_to, b_from) != side(a_from, a_to, b_to) {
        side(b_from, b_to, a_from) != side(b_from, b_to, a_to)
    } else if side(a_from, a_to, b_from) == 0 {
        in_box(b_from, a_from, a_to) || in_box(b_to, a_from, a_to) || in_box(a_to, b_from, b_to)
    } else {
        false
    }
}

/// Whether the segment from `from` to `to` has a point in common with the
/// box between the corners `min` and `max`, border included: an end of the
/// segment lies in the box, or one of the four sides of the box meets the
/// segment.
pub open spec fn segment_meets_rect(from: Point, to: Point, min: Point, max: Point) -> bool {
    let low = Point(lesser(min.0 as int, max.0 as int) as i64, lesser(min.1 as int, max.1 as int) as i64);
    let high = Point(
        greater(min.0 as int, max.0 as int) as i64,
        greater(min.1 as int, max.1 as int) as i64,
    );
    let low_high = Point(low.0, high.1);
    let high_low = Point(high.0, low.1);
    ||| within(from, low, high)
    ||| within(to, low, high)
    ||| segments_meet(low, high_low, from, to)
    ||| segments_meet(high_low, high, from, to)
    ||| segments_meet(low_high, high, from, to)
    ||| segments_meet(low, low_high, from, to)
}

/// Calls `geo`'s `Intersects` on a `Line<i64>` and a `Coordinate<i64>`,
/// which holds where the orientation of the line's two ends and the
/// coordinate is collinear and the coordinate lies in the box of the two
/// ends. The bound on the coordinates keeps the orientation test, a
/// difference of two products of coordinate differences, within 64 bits.
#[verifier::external_body]
pub(crate) fn line_intersects_point(from: Point, to: Point, point: Point) -> (hit: bool)
    requires
        in_reach(from),
        in_reach(to),
        in_reach(point),
    ensures
        hit == segment_holds_point(from, to, point),
{
    let line = geo::Line::new((from.0, from.1), (to.0, to.1));
    geo::algorithm::intersects::Intersects::intersects(&line, &geo::Point::new(point.0, point.1).0)
}

/// Calls `geo`'s `Intersects` on two `Line<i64>`, which compares the
/// orientations of each segment's ends to the other segment as
/// `segments_meet` says. The bound on the coordinates keeps the orientation
/// tests within 64 bits.
#[verifier::external_body]
pub(crate) fn line_intersects_line(a_from: Point, a_to: Point, b_from: Point, b_to: Point) -> (hit:
    bool)
    requires
        in_reach(a_from),
        in_reach(a_to),
        in_reach(b_from),
        in_reach(b_to),
    ensures
        hit == segments_meet(a_from, a_to, b_from, b_to),
{
    let a = geo::Line::new((a_from.0, a_from.1), (a_to.0, a_to.1));
    let b = geo::Line::new((b_from.0, b_from.1), (b_to.0, b_to.1));
    geo::algorithm::intersects::Intersects::intersects(&a, &b)
}

/// Calls `geo`'s `Intersects` on a `Line<i64>` and a `Rect<i64>`, which
/// puts the corners of the box in order, tests the two ends of the line
/// against the box, and its four sides against the line. The bound on the
/// coordinates keeps the orientation tests within 64 bits.
#[verifier::external_body]
pub(crate) fn line_intersects_rect(from: Point, to: Point, min: Point, max: Point) -> (hit: bool)
    requires
        in_reach(from),
        in_reach(to),
        in_reach(min),
        in_reach(max),
    ensures
        hit == segment_meets_rect(from, to, min, max),
{
    let line = geo::Line::new((from.0, from.1), (to.0, to.1));
    let rect = geo::Rect::new((min.0, min.1), (max.0, max.1));
    geo::algorithm::intersects::Intersects::intersects(&line, &rect)
}

/// The box from `min` to `max` holds every one of the points.
pub open spec fn spans(points: Seq<Point>, min: Point, max: Point) -> bool {
    forall|i: int|
        0 <= i < points.len() ==> min.0 <= (#[trigger] points[i]).0 <= max.0 && min.1 <= points[i].1
            <= max.1
}

/// One of the points has this `x`.
pub open spec fn has_x(points: Seq<Point>, x: int) -> bool {
    exists|i: int| 0 <= i < points.len() && (#[trigger] points[i]).0 == x
}

/// One of the points has this `y`.
pub open spec fn has_y(points: Seq<Point>, y: int) -> bool {
    exists|i: int| 0 <= i < points.len() && (#[trigger] points[i]).1 == y
}

/// The box from `min` to `max` is the smallest that holds the points: it
/// holds each of them, and each of its sides has one of them on it.
pub open spec fn bounds_of(points: Seq<Point>, min: Point, max: Point) -> bool {
    &&& spans(points, min, max)
    &&& has_x(points, min.0 as int)
    &&& has_y(points, min.1 as int)
    &&& has_x(points, max.0 as int)
    &&& has_y(points, max.1 as int)
}

/// The smallest box that holds the points, as its corners `min` and `max`.
pub open spec fn field(points: Seq<Point>) -> (Point, Point) {
    choose|b: (Point, Point)| bounds_of(points, b.0, b.1)
}

/// There is one smallest box only.
pub proof fn lemma_bounds_unique(points: Seq<Point>, min: Point, max: Point)
    requires
        bounds_of(points, min, max),
    ensures
        field(points) == (min, max),
{
    let b = field(points);
    assert(bounds_of(points, (min, max).0, (min, max).1));
    assert(bounds_of(points, b.0, b.1));
    let i0 = choose|i: int| 0 <= i < points.len() && (#[trigger] points[i]).0 == min.0;
    let i1 = choose|i: int| 0 <= i < points.len() && (#[trigger] points[i]).1 == min.1;
    let i2 = choose|i: int| 0 <= i < points.len() && (#[trigger] points[i]).0 == max.0;
    let i3 = choose|i: int| 0 <= i < points.len() && (#[trigger] points[i]).1 == max.1;
    let j0 = choose|i: int| 0 <= i < points.len() && (#[trigger] points[i]).0 == b.0.0;
    let j1 = choose|i: int| 0 <= i < points.len() && (#[trigger] points[i]).1 == b.0.1;
    let j2 = choose|i: int| 0 <= i < points.len() && (#[trigger] points[i]).0 == b.1.0;
    let j3 = choose|i: int| 0 <= i < points.len() && (#[trigger] points[i]).1 == b.1.1;
    assert(b.0.0 <= points[i0].0 && min.0 <= points[j0].0);
    assert(b.0.1 <= points[i1].1 && min.1 <= points[j1].1);
    assert(b.1.0 >= points[i2].0 && max.0 >= points[j2].0);
    assert(b.1.1 >= points[i3].1 && max.1 >= points[j3].1);
}

/// Widens the box from `min` to `max` until it holds the points too.
fn widen(points: &[Point], min: Point, max: Point) -> (b: (Point, Point))
    ensures
        spans(points@, b.0, b.1),
        b.0.0 <= min.0 && b.0.1 <= min.1 && max.0 <= b.1.0 && max.1 <= b.1.1,
        b.0.0 == min.0 || has_x(points@, b.0.0 as int),
        b.0.1 == min.1 || has_y(points@, b.0.1 as int),
        b.1.0 == max.0 || has_x(points@, b.1.0 as int),
        b.1.1 == max.1 || has_y(points@, b.1.1 as int),
{
    let mut low = min;
    let mut high = max;
    let mut i: usize = 0;
    while i < points.len()
        invariant
            0 <= i <= points@.len(),
            spans(points@.take(i as int), low, high),
            low.0 <= min.0 && low.1 <= min.1 && max.0 <= high.0 && max.1 <= high.1,
            low.0 == min.0 || has_x(points@, low.0 as int),
            low.1 == min.1 || has_y(points@, low.1 as int),
            high.0 == max.0 || has_x(points@, high.0 as int),
            high.1 == max.1 || has_y(points@, high.1 as int),
        decreases points@.len() - i,
    {
        let p = points[i];
        let ghost before = (low, high);
        if p.0 < low.0 {
            low = Point(p.0, low.1);
        }
        if p.1 < low.1 {
            low = Point(low.0, p.1);
        }
        if p.0 > high.0 {
            high = Point(p.0, high.1);
        }
        if p.1 > high.1 {
            high = Point(high.0, p.1);
        }
        proof {
            assert(points@[i as int] == p);
            assert forall|j: int| 0 <= j < i + 1 implies low.0 <= (#[trigger] points@.take(i + 1)[j]).0
                <= high.0 && low.1 <= points@.take(i + 1)[j].1 <= high.1 by {
                if j < i {
                    assert(points@.take(i as int)[j] == points@.take(i + 1)[j]);
                }
            }
        }
        i = i + 1;
    }
    proof {
        assert(points@.take(points@.len() as int) =~= points@);
    }
    (low, high)
}

/// The smallest box that holds the points of both lists, the first of which
/// is not empty.
pub fn field_bounds(first: &[Point], rest: &[Point]) -> (b: (Point, Point))
    requires
        first@.len() > 0,
    ensures
        b == field(first@ + rest@),
        bounds_of(first@ + rest@, b.0, b.1),
{
    let seed = first[0];
    let one = widen(first, seed, seed);
    let both = widen(rest, one.0, one.1);
    proof {
        let all = first@ + rest@;
        assert forall|i: int| 0 <= i < all.len() implies both.0.0 <= (#[trigger] all[i]).0
            <= both.1.0 && both.0.1 <= all[i].1 <= both.1.1 by {
            if i < first@.len() {
                assert(all[i] == first@[i]);
            } else {
                assert(all[i] == rest@[i - first@.len()]);
            }
        }
        lemma_concat_has(first@, rest@, both.0.0 as int, both.0.1 as int);
        lemma_concat_has(first@, rest@, both.1.0 as int, both.1.1 as int);
        assert(has_x(first@, one.0.0 as int) && has_y(first@, one.0.1 as int));
        assert(has_x(first@, one.1.0 as int) && has_y(first@, one.1.1 as int));
        lemma_concat_has(first@, rest@, one.0.0 as int, one.0.1 as int);
        lemma_concat_has(first@, rest@, one.1.0 as int, one.1.1 as int);
        lemma_bounds_unique(all, both.0, both.1);
    }
    both
}

/// A coordinate that a point of one of two lists has, a point of the two
/// lists joined has too.
proof fn lemma_concat_has(first: Seq<Point>, rest: Seq<Point>, x: int, y: int)
    ensures
        has_x(first, x) || has_x(rest, x) ==> has_x(first + rest, x),
        has_y(first, y) || has_y(rest, y) ==> has_y(first + rest, y),
{
    let all = first + rest;
    if has_x(first, x) {
        let i = choose|i: int| 0 <= i < first.len() && (#[trigger] first[i]).0 == x;
        assert(all[i].0 == x);
    }
    if has_x(rest, x) {
        let i = choose|i: int| 0 <= i < rest.len() && (#[trigger] rest[i]).0 == x;
        assert(all[i + first.len()].0 == x);
    }
    if has_y(first, y) {
        let i = choose|i: int| 0 <= i < first.len() && (#[trigger] first[i]).1 == y;
        assert(all[i].1 == y);
    }
    if has_y(rest, y) {
        let i = choose|i: int| 0 <= i < rest.len() && (#[trigger] rest[i]).1 == y;
        assert(all[i + first.len()].1 == y);
    }
}

/// The number of edges of the hole's border: one from each vertex to the
/// next, and one that closes the ring unless the last vertex repeats the
/// first.
pub open spec fn border_len(hole: Seq<Point>) -> int {
    if hole.len() == 0 {
        0
    } else if hole.first() == hole.last() {
        hole.len() - 1
    } else {
        hole.len() as int
    }
}

/// The edge of the hole's border that starts at vertex `i`.
pub open spec fn border_edge(hole: Seq<Point>, i: int) -> (Point, Point) {
    (
        hole[i],
        if i + 1 < hole.len() {
            hole[i + 1]
        } else {
            hole[0]
        },
    )
}

/// Whether a segment has `point` in its interior: on it and at neither end;
/// a segment without length has its one point for interior.
pub open spec fn segment_encloses_point(from: Point, to: Point, point: Point) -> bool {
    if from == to {
        from == point
    } else {
        point != from && point != to && segment_holds_point(from, to, point)
    }
}

/// Whether the border of the polygon with these vertices, closed from the
/// last to the first, has `point` on it: the point is the first vertex, or
/// the start of a later edge of the border, or in the interior of an edge.
pub open spec fn ring_holds_point(ring: Seq<Point>, point: Point) -> bool {
    &&& ring.len() > 0
    &&& {
        ||| point == ring[0]
        ||| exists|i: int|
            0 <= i < border_len(ring) && {
                ||| segment_encloses_point(
                    (#[trigger] border_edge(ring, i)).0,
                    border_edge(ring, i).1,
                    point,
                )
                ||| (i > 0 && point == border_edge(ring, i).0)
            }
    }
}

/// Whether the polygon with these vertices has `point` in its interior.
pub uninterp spec fn polygon_encloses_point(ring: Seq<Point>, point: Point) -> bool;

/// The point lies in the hole or on its border.
pub open spec fn hole_holds(hole: Seq<Point>, point: Point) -> bool {
    ring_holds_point(hole, point) || polygon_encloses_point(hole, point)
}

/// Makes a `geo::Polygon<i64>` of the vertices, which closes the ring, and
/// calls `Contains` on its exterior, a `LineString`, with the point. That
/// holds where the point is the ring's first, or lies in the interior of
/// one of its lines, or is the start of a line after the first. The bound
/// on the coordinates keeps the orientation tests within 64 bits.
#[verifier::external_body]
pub(crate) fn ring_contains(ring: &[Point], point: Point) -> (hit: bool)
    requires
        all_in_reach(ring@),
        in_reach(point),
    ensures
        hit == ring_holds_point(ring@, point),
{
    let exterior: Vec<(i64, i64)> = ring.iter().map(|p| (p.0, p.1)).collect();
    let polygon = geo::Polygon::new(geo::LineString::from(exterior), vec![]);
    geo::algorithm::contains::Contains::contains(
        polygon.exterior(),
        &geo::Point::new(point.0, point.1).0,
    )
}

/// Makes a `geo::Polygon<i64>` of the vertices and calls `Contains` on it
/// with the point, which holds of the points of the interior. The result is
/// named `polygon_encloses_point`; the bound on the coordinates keeps the
/// orientation tests within 64 bits.
#[verifier::external_body]
pub(crate) fn polygon_contains(ring: &[Point], point: Point) -> (hit: bool)
    requires
        all_in_reach(ring@),
        in_reach(point),
    ensures
        hit == polygon_encloses_point(ring@, point),
{
    let exterior: Vec<(i64, i64)> = ring.iter().map(|p| (p.0, p.1)).collect();
    let polygon = geo::Polygon::new(geo::LineString::from(exterior), vec![]);
    geo::algorithm::contains::Contains::contains(&polygon, &geo::Point::new(point.0, point.1).0)
}

/// Tells whether the point lies in the hole or on its border.
pub fn hole_contains(hole: &[Point], point: Point) -> (hit: bool)
    requires
        all_in_reach(hole@),
        in_reach(point),
    ensures
        hit == hole_holds(hole@, point),
{
    ring_contains(hole, point) || polygon_contains(hole, point)
}

/// The point lies in the box from `min` to `max` or on its border.
pub open spec fn within(p: Point, min: Point, max: Point) -> bool {
    min.0 <= p.0 <= max.0 && min.1 <= p.1 <= max.1
}

/// The number of lattice points along the `x` axis of the field.
pub open spec fn field_width(min: Point, max: Point) -> int {
    max.0 - min.0 + 1
}

/// The number of lattice points along the `y` axis of the field.
pub open spec fn field_height(min: Point, max: Point) -> int {
    max.1 - min.1 + 1
}

/// The number of lattice points of the field.
pub open spec fn field_area(min: Point, max: Point) -> int {
    field_width(min, max) * field_height(min, max)
}

/// The lattice point of the field with number `position`, counted row by
/// row from `min`.
pub open spec fn lattice_point(min: Point, max: Point, position: int) -> Point {
    Point(
        (min.0 + position % field_width(min, max)) as i64,
        (min.1 + position / field_width(min, max)) as i64,
    )
}

/// The number of the lattice point `p` of the field.
pub open spec fn lattice_position(min: Point, max: Point, p: Point) -> int {
    (p.1 - min.1) * field_width(min, max) + (p.0 - min.0)
}

/// Each lattice point of the field has a number below the field's area, and
/// is the point with that number.
pub proof fn lemma_lattice_position(min: Point, max: Point, p: Point)
    requires
        within(p, min, max),
    ensures
        0 <= lattice_position(min, max, p) < field_area(min, max),
        lattice_point(min, max, lattice_position(min, max, p)) == p,
{
    let w = field_width(min, max);
    let h = field_height(min, max);
    let row = p.1 - min.1;
    let col = p.0 - min.0;
    assert(0 <= row * w + col < w * h) by (nonlinear_arith)
        requires
            0 <= row < h,
            0 <= col < w,
    ;
    assert((row * w + col) / w == row && (row * w + col) % w == col) by (nonlinear_arith)
        requires
            0 <= row,
            0 <= col < w,
    ;
}

/// The lattice point with a number below the field's area lies in the
/// field.
pub proof fn lemma_lattice_point_within(min: Point, max: Point, position: int)
    requires
        min.0 <= max.0,
        min.1 <= max.1,
        0 <= position < field_area(min, max),
    ensures
        within(lattice_point(min, max, position), min, max),
        0 <= position % field_width(min, max) < field_width(min, max),
        0 <= position / field_width(min, max) < field_height(min, max),
{
    let w = field_width(min, max);
    let h = field_height(min, max);
    assert(0 <= position % w < w && 0 <= position / w < h) by (nonlinear_arith)
        requires
            0 < w,
            0 < h,
            0 <= position < w * h,
    ;
}

} // verus!
