//! A quad tree over the field of a problem that tells, for most segments
//! without looking at the hole again, whether they stay inside it.

use crate::geometry::{
    all_in_reach, border_edge, border_len, field, field_bounds, in_reach, line_intersects_line,
    line_intersects_point, line_intersects_rect, segment_holds_point, segment_meets_rect,
    segments_meet, within, COORD_LIMIT,
};
use crate::problem::{earlier, InvalidEdge, Point, Problem};
use vstd::prelude::*;

verus! {

/// How the hole lies to a box: it has no point in common with it, it
/// contains all of it, or neither.
#[derive(Clone, Copy, PartialEq, Eq, Debug, Structural)]
pub enum Relation {
    Disjoint,
    Contains,
    Intersects,
}

/// A way in which a segment may touch a cell of the tree and still be inside
/// the hole.
#[derive(Clone, Copy, PartialEq, Eq, Debug, Structural)]
pub enum Condition {
    /// The segment touches the cell in this corner and nowhere else.
    EdgeCornerTouch { corner: Point },
}

/// What a node of the tree knows of its box.
#[derive(Debug)]
pub enum NodeKind {
    /// Every point of the box is in the hole.
    Inside,
    /// No point of the box is in the hole.
    Outside,
    /// The box is a single cell that the hole's border runs through.
    Uncertain,
    /// The box is a single cell that the hole's border only touches in
    /// corners.
    ConditionsSet { conditions: Vec<Condition> },
    /// The box is split in quarters.
    Branch { children: Vec<Node> },
}

/// A node of the tree: a box, from `min` to `max`, and what is known of it.
#[derive(Debug)]
pub struct Node {
    pub min: Point,
    pub max: Point,
    pub kind: NodeKind,
}

/// Why a tree could not be built.
#[derive(Clone, Copy, PartialEq, Eq, Debug, Structural)]
pub enum CreateError {
    NoPointsInHole,
    NoPointsInFigure,
    FieldIsTooSmall,
}

/// What a subtree says of a segment.
#[derive(Clone, Copy, PartialEq, Eq, Debug, Structural)]
pub enum IntersectsNode {
    /// The segment does not come near the subtree's box.
    DoesNot,
    /// Where the segment crosses the box it is inside the hole.
    Inside,
    /// Somewhere in the box the segment is outside the hole.
    Outside,
    /// The segment crosses a cell of which the tree cannot tell.
    Uncertain,
}

/// The box has no extent along some axis.
pub open spec fn is_empty(min: Point, max: Point) -> bool {
    min.0 >= max.0 || min.1 >= max.1
}

/// The box is a single cell of the lattice.
pub open spec fn is_unit(min: Point, max: Point) -> bool {
    max.0 == min.0 + 1 && max.1 == min.1 + 1
}

/// The corner of a box at its largest `x` and smallest `y`.
pub open spec fn upper_right(min: Point, max: Point) -> Point {
    Point(max.0, min.1)
}

/// The corner of a box at its smallest `x` and largest `y`.
pub open spec fn bottom_left(min: Point, max: Point) -> Point {
    Point(min.0, max.1)
}

/// The segment meets the side of the box along its smallest `y`.
pub open spec fn meets_upper(from: Point, to: Point, min: Point, max: Point) -> bool {
    segments_meet(from, to, min, upper_right(min, max))
}

/// The segment meets the side of the box along its largest `x`.
pub open spec fn meets_right(from: Point, to: Point, min: Point, max: Point) -> bool {
    segments_meet(from, to, upper_right(min, max), max)
}

/// The segment meets the side of the box along its largest `y`.
pub open spec fn meets_bottom(from: Point, to: Point, min: Point, max: Point) -> bool {
    segments_meet(from, to, max, bottom_left(min, max))
}

/// The segment meets the side of the box along its smallest `x`.
pub open spec fn meets_left(from: Point, to: Point, min: Point, max: Point) -> bool {
    segments_meet(from, to, bottom_left(min, max), min)
}

/// The segment touches the box in `corner`, which is one of its four, and
/// nowhere else: it passes through the corner and misses the two sides that
/// do not end there.
pub open spec fn touches_corner(from: Point, to: Point, min: Point, max: Point, corner: Point) -> bool {
    if corner == upper_right(min, max) {
        segment_holds_point(from, to, corner) && !meets_bottom(from, to, min, max) && !meets_left(
            from,
            to,
            min,
            max,
        )
    } else if corner == max {
        segment_holds_point(from, to, corner) && !meets_left(from, to, min, max) && !meets_upper(
            from,
            to,
            min,
            max,
        )
    } else if corner == bottom_left(min, max) {
        segment_holds_point(from, to, corner) && !meets_upper(from, to, min, max) && !meets_right(
            from,
            to,
            min,
            max,
        )
    } else if corner == min {
        segment_holds_point(from, to, corner) && !meets_right(from, to, min, max) && !meets_bottom(
            from,
            to,
            min,
            max,
        )
    } else {
        false
    }
}

/// The corner in which the segment touches the box and nowhere else, if
/// there is one. The corners are tried clockwise from the upper right.
pub open spec fn touched_corner(from: Point, to: Point, min: Point, max: Point) -> Option<Point> {
    if touches_corner(from, to, min, max, upper_right(min, max)) {
        Some(upper_right(min, max))
    } else if touches_corner(from, to, min, max, max) {
        Some(max)
    } else if touches_corner(from, to, min, max, bottom_left(min, max)) {
        Some(bottom_left(min, max))
    } else if touches_corner(from, to, min, max, min) {
        Some(min)
    } else {
        None
    }
}

/// Tells whether the segment touches the box in `corner` and nowhere else.
pub fn corner_touch(from: Point, to: Point, min: Point, max: Point, corner: Point) -> (touch: bool)
    requires
        in_reach(from),
        in_reach(to),
        in_reach(min),
        in_reach(max),
    ensures
        touch == touches_corner(from, to, min, max, corner),
{
    let upper_right = Point(max.0, min.1);
    let bottom_left = Point(min.0, max.1);
    if corner == upper_right {
        line_intersects_point(from, to, corner) && !line_intersects_line(from, to, max, bottom_left)
            && !line_intersects_line(from, to, bottom_left, min)
    } else if corner == max {
        line_intersects_point(from, to, corner) && !line_intersects_line(from, to, bottom_left, min)
            && !line_intersects_line(from, to, min, upper_right)
    } else if corner == bottom_left {
        line_intersects_point(from, to, corner) && !line_intersects_line(from, to, min, upper_right)
            && !line_intersects_line(from, to, upper_right, max)
    } else if corner == min {
        line_intersects_point(from, to, corner) && !line_intersects_line(from, to, upper_right, max)
            && !line_intersects_line(from, to, max, bottom_left)
    } else {
        false
    }
}

/// Finds the corner in which the segment touches the box and nowhere else.
pub fn find_touched_corner(from: Point, to: Point, min: Point, max: Point) -> (corner: Option<Point>)
    requires
        in_reach(from),
        in_reach(to),
        in_reach(min),
        in_reach(max),
    ensures
        corner == touched_corner(from, to, min, max),
{
    let upper_right = Point(max.0, min.1);
    let bottom_left = Point(min.0, max.1);
    if corner_touch(from, to, min, max, upper_right) {
        Some(upper_right)
    } else if corner_touch(from, to, min, max, max) {
        Some(max)
    } else if corner_touch(from, to, min, max, bottom_left) {
        Some(bottom_left)
    } else if corner_touch(from, to, min, max, min) {
        Some(min)
    } else {
        None
    }
}

/// The conditions that the first `n` edges of the hole's border put on a
/// cell, or `None` where one of them rules conditions out.
///
/// An edge that does not meet the cell puts no condition on it. One that
/// touches it in a single corner and nowhere else adds that corner. Any
/// other edge rules conditions out.
pub open spec fn cell_conditions(hole: Seq<Point>, n: int, min: Point, max: Point) -> Option<
    Seq<Condition>,
>
    decreases n,
{
    if n <= 0 {
        Some(Seq::empty())
    } else {
        let edge = border_edge(hole, n - 1);
        match cell_conditions(hole, n - 1, min, max) {
            None => None,
            Some(found) => {
                if !segment_meets_rect(edge.0, edge.1, min, max) {
                    Some(found)
                } else {
                    match touched_corner(edge.0, edge.1, min, max) {
                        Some(corner) => Some(found.push(Condition::EdgeCornerTouch { corner })),
                        None => None,
                    }
                }
            },
        }
    }
}

/// Once an edge has ruled conditions out, no later edge brings them back.
pub proof fn lemma_cell_conditions_stay_none(hole: Seq<Point>, n: int, m: int, min: Point, max: Point)
    requires
        0 <= n <= m,
        cell_conditions(hole, n, min, max) is None,
    ensures
        cell_conditions(hole, m, min, max) is None,
    decreases m - n,
{
    if n < m {
        lemma_cell_conditions_stay_none(hole, n, m - 1, min, max);
    }
}

/// What a single cell that the hole neither avoids nor contains is marked
/// as: the conditions that the border puts on it where there are any, and
/// uncertain otherwise.
pub open spec fn cell_marks(hole: Seq<Point>, min: Point, max: Point) -> Option<Seq<Condition>> {
    match cell_conditions(hole, border_len(hole), min, max) {
        Some(found) => if found.len() > 0 {
            Some(found)
        } else {
            None
        },
        None => None,
    }
}

/// Works out the marks of a single cell from the hole's border.
pub fn mark_cell(hole: &Vec<Point>, min: Point, max: Point) -> (kind: NodeKind)
    requires
        all_in_reach(hole@),
        in_reach(min),
        in_reach(max),
    ensures
        match cell_marks(hole@, min, max) {
            Some(found) => kind matches NodeKind::ConditionsSet { conditions } && conditions@ == found,
            None => kind is Uncertain,
        },
{
    let count = hole.len();
    if count == 0 {
        return NodeKind::Uncertain;
    }
    let edges = if hole[0] == hole[count - 1] {
        count - 1
    } else {
        count
    };
    let mut conditions: Vec<Condition> = Vec::new();
    let mut i: usize = 0;
    while i < edges
        invariant
            0 <= i <= edges,
            edges == border_len(hole@),
            count == hole@.len(),
            count > 0,
            all_in_reach(hole@),
            in_reach(min),
            in_reach(max),
            cell_conditions(hole@, i as int, min, max) == Some(conditions@),
        decreases edges - i,
    {
        let from = hole[i];
        let to = if i + 1 < count {
            hole[i + 1]
        } else {
            hole[0]
        };
        assert((from, to) == border_edge(hole@, i as int));
        if line_intersects_rect(from, to, min, max) {
            match find_touched_corner(from, to, min, max) {
                Some(corner) => {
                    conditions.push(Condition::EdgeCornerTouch { corner });
                },
                None => {
                    proof {
                        assert(cell_conditions(hole@, i + 1, min, max) is None);
                        lemma_cell_conditions_stay_none(hole@, i + 1, edges as int, min, max);
                    }
                    return NodeKind::Uncertain;
                },
            }
        }
        i = i + 1;
    }
    if conditions.len() > 0 {
        NodeKind::ConditionsSet { conditions }
    } else {
        NodeKind::Uncertain
    }
}

/// The lattice point at which a box is split: halfway along each axis,
/// rounded towards `min`.
pub open spec fn center(min: Point, max: Point) -> Point {
    Point((min.0 + (max.0 - min.0) / 2) as i64, (min.1 + (max.1 - min.1) / 2) as i64)
}

/// The quarters into which a box is split at its center, numbered row by
/// row from the one at `min`.
pub open spec fn quarter(min: Point, max: Point, k: int) -> (Point, Point) {
    let c = center(min, max);
    if k == 0 {
        (min, c)
    } else if k == 1 {
        (Point(c.0, min.1), Point(max.0, c.1))
    } else if k == 2 {
        (Point(min.0, c.1), Point(c.0, max.1))
    } else {
        (c, max)
    }
}

/// How many of the quarters before number `k` are not empty.
pub open spec fn kept_before(min: Point, max: Point, k: int) -> int
    decreases k,
{
    if k <= 0 {
        0
    } else {
        let q = quarter(min, max, k - 1);
        kept_before(min, max, k - 1) + if is_empty(q.0, q.1) {
            0int
        } else {
            1int
        }
    }
}

/// Every box of the subtree has its corners in reach.
pub open spec fn node_in_reach(node: Node) -> bool
    decreases node,
{
    &&& in_reach(node.min)
    &&& in_reach(node.max)
    &&& node.kind matches NodeKind::Branch { children } ==> forall|i: int|
        0 <= i < children@.len() ==> node_in_reach(#[trigger] children@[i])
}

/// The subtree is what building makes of its box, given the answers of
/// `relate`.
///
/// A box that the hole avoids is `Outside` and one that it contains is
/// `Inside`. Of the others, a single cell carries the marks that the hole's
/// border gives it, and a larger box is split: it has one child for each
/// quarter that is not empty, in the order of the quarters, each built in
/// the same way.
pub open spec fn grown_from<R: Fn(Point, Point) -> Relation>(
    relate: R,
    hole: Seq<Point>,
    node: Node,
) -> bool
    decreases node,
{
    &&& !is_empty(node.min, node.max)
    &&& match node.kind {
        NodeKind::Outside => call_ensures(relate, (node.min, node.max), Relation::Disjoint),
        NodeKind::Inside => call_ensures(relate, (node.min, node.max), Relation::Contains),
        NodeKind::Uncertain => {
            &&& call_ensures(relate, (node.min, node.max), Relation::Intersects)
            &&& is_unit(node.min, node.max)
            &&& cell_marks(hole, node.min, node.max) is None
        },
        NodeKind::ConditionsSet { conditions } => {
            &&& call_ensures(relate, (node.min, node.max), Relation::Intersects)
            &&& is_unit(node.min, node.max)
            &&& cell_marks(hole, node.min, node.max) == Some(conditions@)
        },
        NodeKind::Branch { children } => {
            &&& call_ensures(relate, (node.min, node.max), Relation::Intersects)
            &&& !is_unit(node.min, node.max)
            &&& children@.len() == kept_before(node.min, node.max, 4)
            &&& forall|i: int|
                0 <= i < children@.len() ==> grown_from(relate, hole, #[trigger] children@[i])
            &&& forall|k: int|
                0 <= k < 4 && !is_empty(
                    quarter(node.min, node.max, k).0,
                    quarter(node.min, node.max, k).1,
                ) ==> {
                    let child = children@[#[trigger] kept_before(node.min, node.max, k)];
                    child.min == quarter(node.min, node.max, k).0 && child.max == quarter(
                        node.min,
                        node.max,
                        k,
                    ).1
                }
        },
    }
}

/// `relate` can be asked of every box in reach that is not empty.
pub open spec fn answers_all<R: Fn(Point, Point) -> Relation>(relate: R) -> bool {
    forall|min: Point, max: Point|
        in_reach(min) && in_reach(max) && !is_empty(min, max) ==> call_requires(relate, (min, max))
}

/// The extent of a box along both axes, or zero where it is empty.
pub open spec fn girth(min: Point, max: Point) -> int {
    if is_empty(min, max) {
        0
    } else {
        (max.0 - min.0) + (max.1 - min.1)
    }
}

/// Builds the subtree for the box from `min` to `max`, or nothing where the
/// box is empty. `relate` is asked once for each box of the subtree how the
/// hole lies to it.
pub fn quad_tree_build<R: Fn(Point, Point) -> Relation>(
    relate: &R,
    hole: &Vec<Point>,
    min: Point,
    max: Point,
) -> (out: Option<Node>)
    requires
        answers_all(*relate),
        all_in_reach(hole@),
        in_reach(min),
        in_reach(max),
    ensures
        out is None <==> is_empty(min, max),
        out matches Some(node) ==> node.min == min && node.max == max && grown_from(
            *relate,
            hole@,
            node,
        ) && node_in_reach(node),
    decreases girth(min, max),
{
    if min.0 >= max.0 || min.1 >= max.1 {
        return None;
    }
    match relate(min, max) {
        Relation::Disjoint => Some(Node { min, max, kind: NodeKind::Outside }),
        Relation::Contains => Some(Node { min, max, kind: NodeKind::Inside }),
        Relation::Intersects => {
            if min.0 + 1 >= max.0 && min.1 + 1 >= max.1 {
                let kind = mark_cell(hole, min, max);
                Some(Node { min, max, kind })
            } else {
                let mid = Point(min.0 + (max.0 - min.0) / 2, min.1 + (max.1 - min.1) / 2);
                assert(mid == center(min, max));
                let mut children: Vec<Node> = Vec::new();
                proof {
                    reveal_with_fuel(kept_before, 5);
                }
                match quad_tree_build(relate, hole, min, mid) {
                    Some(child) => {
                        children.push(child);
                    },
                    None => {},
                }
                match quad_tree_build(relate, hole, Point(mid.0, min.1), Point(max.0, mid.1)) {
                    Some(child) => {
                        children.push(child);
                    },
                    None => {},
                }
                match quad_tree_build(relate, hole, Point(min.0, mid.1), Point(mid.0, max.1)) {
                    Some(child) => {
                        children.push(child);
                    },
                    None => {},
                }
                match quad_tree_build(relate, hole, mid, max) {
                    Some(child) => {
                        children.push(child);
                    },
                    None => {},
                }
                Some(Node { min, max, kind: NodeKind::Branch { children } })
            }
        },
    }
}

/// One of the conditions lets the segment touch the cell as it does.
pub open spec fn condition_met(
    conditions: Seq<Condition>,
    from: Point,
    to: Point,
    min: Point,
    max: Point,
) -> bool {
    exists|i: int|
        0 <= i < conditions.len() && touches_corner(from, to, min, max, (#[trigger] conditions[i])->corner)
}

/// What the subtree says of the segment from `from` to `to`.
///
/// A segment that does not meet the node's box passes it by. A leaf that is
/// inside, outside or uncertain says so. A cell with conditions lets the
/// segment pass where it meets one of them, and takes any other contact for
/// leaving the hole. A split box is outside where one of its quarters is,
/// else uncertain where one of them is, else inside.
pub open spec fn node_verdict(node: Node, from: Point, to: Point) -> IntersectsNode
    decreases node,
{
    if !segment_meets_rect(from, to, node.min, node.max) {
        IntersectsNode::DoesNot
    } else {
        match node.kind {
            NodeKind::Inside => IntersectsNode::Inside,
            NodeKind::Outside => IntersectsNode::Outside,
            NodeKind::Uncertain => IntersectsNode::Uncertain,
            NodeKind::ConditionsSet { conditions } => {
                if condition_met(conditions@, from, to, node.min, node.max) {
                    IntersectsNode::Inside
                } else {
                    IntersectsNode::Outside
                }
            },
            NodeKind::Branch { children } => {
                if exists|i: int|
                    0 <= i < children@.len() && node_verdict(#[trigger] children@[i], from, to)
                        == IntersectsNode::Outside {
                    IntersectsNode::Outside
                } else if exists|i: int|
                    0 <= i < children@.len() && node_verdict(#[trigger] children@[i], from, to)
                        == IntersectsNode::Uncertain {
                    IntersectsNode::Uncertain
                } else {
                    IntersectsNode::Inside
                }
            },
        }
    }
}

/// Asks the subtree what it says of the segment from `from` to `to`.
#[verifier::loop_isolation(false)]
pub fn quad_tree_edge_node_intersection(node: &Node, from: Point, to: Point) -> (verdict:
    IntersectsNode)
    requires
        node_in_reach(*node),
        in_reach(from),
        in_reach(to),
    ensures
        verdict == node_verdict(*node, from, to),
    decreases node,
{
    if !line_intersects_rect(from, to, node.min, node.max) {
        return IntersectsNode::DoesNot;
    }
    match &node.kind {
        NodeKind::Inside => IntersectsNode::Inside,
        NodeKind::Outside => IntersectsNode::Outside,
        NodeKind::Uncertain => IntersectsNode::Uncertain,
        NodeKind::Branch { children } => {
            let mut uncertain_hit = false;
            let mut i: usize = 0;
            while i < children.len()
                invariant
                    0 <= i <= children@.len(),
                    forall|j: int|
                        0 <= j < i ==> node_verdict(#[trigger] children@[j], from, to)
                            != IntersectsNode::Outside,
                    uncertain_hit <==> exists|j: int|
                        0 <= j < i && node_verdict(#[trigger] children@[j], from, to)
                            == IntersectsNode::Uncertain,
                decreases children@.len() - i,
            {
                match quad_tree_edge_node_intersection(&children[i], from, to) {
                    IntersectsNode::DoesNot => {},
                    IntersectsNode::Uncertain => {
                        uncertain_hit = true;
                    },
                    IntersectsNode::Inside => {},
                    IntersectsNode::Outside => {
                        return IntersectsNode::Outside;
                    },
                }
                i = i + 1;
            }
            if uncertain_hit {
                IntersectsNode::Uncertain
            } else {
                IntersectsNode::Inside
            }
        },
        NodeKind::ConditionsSet { conditions } => {
            let mut i: usize = 0;
            while i < conditions.len()
                invariant
                    0 <= i <= conditions@.len(),
                    forall|j: int|
                        0 <= j < i ==> !touches_corner(
                            from,
                            to,
                            node.min,
                            node.max,
                            (#[trigger] conditions@[j])->corner,
                        ),
                decreases conditions@.len() - i,
            {
                match conditions[i] {
                    Condition::EdgeCornerTouch { corner } => {
                        if corner_touch(from, to, node.min, node.max, corner) {
                            assert(touches_corner(
                                from,
                                to,
                                node.min,
                                node.max,
                                conditions@[i as int]->corner,
                            ));
                            return IntersectsNode::Inside;
                        }
                    },
                }
                i = i + 1;
            }
            IntersectsNode::Outside
        },
    }
}

/// The margin by which the tree's box exceeds the field at its small end.
pub const MARGIN_LOW: i64 = 2;

/// The margin by which the tree's box exceeds the field at its large end.
pub const MARGIN_HIGH: i64 = 3;

/// The points of the hole and of the figure are far enough from the limit of
/// the coordinates for the tree's box to be in reach.
pub open spec fn field_in_reach(problem: &Problem) -> bool {
    forall|i: int|
        0 <= i < (problem.hole@ + problem.figure.vertices@).len() ==> {
            let p = #[trigger] (problem.hole@ + problem.figure.vertices@)[i];
            &&& MARGIN_LOW - COORD_LIMIT <= p.0 <= COORD_LIMIT - MARGIN_HIGH
            &&& MARGIN_LOW - COORD_LIMIT <= p.1 <= COORD_LIMIT - MARGIN_HIGH
        }
}

/// What the tree with this root says of the segment between `a` and `b`,
/// which it looks up from the earlier end to the later one.
pub open spec fn lookup(root: Node, a: Point, b: Point) -> IntersectsNode {
    if earlier(b, a) {
        node_verdict(root, b, a)
    } else {
        node_verdict(root, a, b)
    }
}

/// What a tree with this root, falling back on this oracle, says of the
/// segment between `a` and `b`.
///
/// A segment with an end outside the root's box is invalid. Any other is
/// looked up in the tree, from its earlier end to its later one: it is
/// invalid where the tree finds it outside, valid where the tree finds it
/// inside, and where the tree cannot tell the oracle decides.
pub open spec fn tree_says<E: InvalidEdge>(root: Node, geo_hole: E, a: Point, b: Point) -> bool {
    if !within(a, root.min, root.max) || !within(b, root.min, root.max) {
        true
    } else {
        match lookup(root, a, b) {
            IntersectsNode::Outside => true,
            IntersectsNode::DoesNot => true,
            IntersectsNode::Inside => false,
            IntersectsNode::Uncertain => geo_hole.edge_invalid(a, b),
        }
    }
}

/// The quad tree of a hole, with the exact oracle that it falls back on.
pub struct GeoHoleQuadTree<E: InvalidEdge> {
    root: Node,
    geo_hole: E,
}

impl<E: InvalidEdge> GeoHoleQuadTree<E> {
    #[verifier::type_invariant]
    spec fn holds_in_reach(&self) -> bool {
        node_in_reach(self.root)
    }

    /// The root of the tree.
    pub closed spec fn root(&self) -> Node {
        self.root
    }

    /// The oracle that decides where the tree cannot tell.
    pub closed spec fn fallback(&self) -> E {
        self.geo_hole
    }

    /// Builds the tree of the problem's hole over the field of the hole and
    /// the figure, widened by a margin. `relate` tells how the hole lies to
    /// a box, and `geo_hole` is the oracle to fall back on. A hole that has
    /// no extent along some axis gives no tree.
    pub fn new<R: Fn(Point, Point) -> Relation>(problem: &Problem, geo_hole: E, relate: &R) -> (r:
        Result<GeoHoleQuadTree<E>, CreateError>)
        requires
            answers_all(*relate),
            field_in_reach(problem),
        ensures
            problem.hole@.len() == 0 <==> r == Err::<GeoHoleQuadTree<E>, CreateError>(
                CreateError::NoPointsInHole,
            ),
            problem.hole@.len() > 0 && problem.figure.vertices@.len() == 0 <==> r == Err::<
                GeoHoleQuadTree<E>,
                CreateError,
            >(CreateError::NoPointsInFigure),
            problem.hole@.len() > 0 && problem.figure.vertices@.len() > 0 && is_empty(
                field(problem.hole@).0,
                field(problem.hole@).1,
            ) <==> r == Err::<GeoHoleQuadTree<E>, CreateError>(CreateError::FieldIsTooSmall),
            r matches Ok(tree) ==> {
                let bounds = field(problem.hole@ + problem.figure.vertices@);
                &&& tree.fallback() == geo_hole
                &&& tree.root().min == Point(
                    (bounds.0.0 - MARGIN_LOW) as i64,
                    (bounds.0.1 - MARGIN_LOW) as i64,
                )
                &&& tree.root().max == Point(
                    (bounds.1.0 + MARGIN_HIGH) as i64,
                    (bounds.1.1 + MARGIN_HIGH) as i64,
                )
                &&& grown_from(*relate, problem.hole@, tree.root())
            },
    {
        if problem.hole.len() == 0 {
            return Err(CreateError::NoPointsInHole);
        }
        if problem.figure.vertices.len() == 0 {
            return Err(CreateError::NoPointsInFigure);
        }
        let none: Vec<Point> = Vec::new();
        assert(problem.hole@ + none@ =~= problem.hole@);
        let (hole_min, hole_max) = field_bounds(problem.hole.as_slice(), none.as_slice());
        if hole_min.0 >= hole_max.0 || hole_min.1 >= hole_max.1 {
            return Err(CreateError::FieldIsTooSmall);
        }
        let (field_min, field_max) = field_bounds(
            problem.hole.as_slice(),
            problem.figure.vertices.as_slice(),
        );
        proof {
            let hole = problem.hole@;
            let h0 = choose|i: int| 0 <= i < hole.len() && (#[trigger] hole[i]).0 == hole_min.0;
            let h1 = choose|i: int| 0 <= i < hole.len() && (#[trigger] hole[i]).1 == hole_min.1;
            let h2 = choose|i: int| 0 <= i < hole.len() && (#[trigger] hole[i]).0 == hole_max.0;
            let h3 = choose|i: int| 0 <= i < hole.len() && (#[trigger] hole[i]).1 == hole_max.1;
            let both = problem.hole@ + problem.figure.vertices@;
            assert(both[h0] == hole[h0] && both[h1] == hole[h1] && both[h2] == hole[h2] && both[h3]
                == hole[h3]);
        }
        proof {
            let all = problem.hole@ + problem.figure.vertices@;
            let i0 = choose|i: int| 0 <= i < all.len() && (#[trigger] all[i]).0 == field_min.0;
            let i1 = choose|i: int| 0 <= i < all.len() && (#[trigger] all[i]).1 == field_min.1;
            let i2 = choose|i: int| 0 <= i < all.len() && (#[trigger] all[i]).0 == field_max.0;
            let i3 = choose|i: int| 0 <= i < all.len() && (#[trigger] all[i]).1 == field_max.1;
            assert forall|i: int| 0 <= i < problem.hole@.len() implies in_reach(
                #[trigger] problem.hole@[i],
            ) by {
                assert(all[i] == problem.hole@[i]);
            }
        }
        let min = Point(field_min.0 - MARGIN_LOW, field_min.1 - MARGIN_LOW);
        let max = Point(field_max.0 + MARGIN_HIGH, field_max.1 + MARGIN_HIGH);
        match quad_tree_build(relate, &problem.hole, min, max) {
            Some(root) => Ok(GeoHoleQuadTree { root, geo_hole }),
            None => Err(CreateError::FieldIsTooSmall),
        }
    }
}

impl<E: InvalidEdge> InvalidEdge for GeoHoleQuadTree<E> {
    open spec fn edge_invalid(&self, edge_from: Point, edge_to: Point) -> bool {
        tree_says(self.root(), self.fallback(), edge_from, edge_to)
    }

    fn is_edge_invalid(&self, edge_from: Point, edge_to: Point) -> (invalid: bool) {
        proof {
            use_type_invariant(self);
        }
        let min = self.root.min;
        let max = self.root.max;
        if edge_from.0 < min.0 || edge_from.0 > max.0 || edge_from.1 < min.1 || edge_from.1 > max.1 {
            return true;
        }
        if edge_to.0 < min.0 || edge_to.0 > max.0 || edge_to.1 < min.1 || edge_to.1 > max.1 {
            return true;
        }
        let verdict = if edge_to.is_before(&edge_from) {
            quad_tree_edge_node_intersection(&self.root, edge_to, edge_from)
        } else {
            quad_tree_edge_node_intersection(&self.root, edge_from, edge_to)
        };
        match verdict {
            IntersectsNode::Outside => true,
            IntersectsNode::Inside => false,
            IntersectsNode::Uncertain => self.geo_hole.is_edge_invalid(edge_from, edge_to),
            IntersectsNode::DoesNot => true,
        }
    }
}

/// Where the oracle behind a tree says the same of a segment in both
/// directions, so does the tree.
pub proof fn lemma_tree_undirected<E: InvalidEdge>(tree: &GeoHoleQuadTree<E>, a: Point, b: Point)
    requires
        tree.fallback().edge_invalid(a, b) == tree.fallback().edge_invalid(b, a),
    ensures
        tree.edge_invalid(a, b) == tree.edge_invalid(b, a),
{
    if !earlier(a, b) && !earlier(b, a) {
        assert(a == b);
    }
}

/// A cell with conditions lets a segment pass that touches it in a corner
/// that one of the conditions names, and nowhere else.
pub proof fn lemma_corner_touch_passes(node: Node, from: Point, to: Point, i: int)
    requires
        node.kind is ConditionsSet,
        0 <= i < node.kind->conditions@.len(),
        segment_meets_rect(from, to, node.min, node.max),
        touches_corner(from, to, node.min, node.max, node.kind->conditions@[i]->corner),
    ensures
        node_verdict(node, from, to) == IntersectsNode::Inside,
{
}

/// Where the tree cannot tell of a segment between two points of its box,
/// it says what the oracle behind it says.
pub proof fn lemma_tree_defers_to_oracle<E: InvalidEdge>(
    tree: &GeoHoleQuadTree<E>,
    a: Point,
    b: Point,
)
    requires
        within(a, tree.root().min, tree.root().max),
        within(b, tree.root().min, tree.root().max),
        lookup(tree.root(), a, b) == IntersectsNode::Uncertain,
    ensures
        tree.edge_invalid(a, b) == tree.fallback().edge_invalid(a, b),
{
}

/// A subtree that was built has the shape of a quad tree: no box is empty,
/// only single cells carry conditions or are uncertain, the conditions of a
/// cell are corners of it, and a split box has a child for each of its
/// quarters that are not empty, and no other.
pub open spec fn well_shaped(node: Node) -> bool
    decreases node,
{
    &&& !is_empty(node.min, node.max)
    &&& match node.kind {
        NodeKind::Outside => true,
        NodeKind::Inside => true,
        NodeKind::Uncertain => is_unit(node.min, node.max),
        NodeKind::ConditionsSet { conditions } => {
            &&& is_unit(node.min, node.max)
            &&& conditions@.len() > 0
            &&& forall|i: int|
                0 <= i < conditions@.len() ==> is_corner(
                    (#[trigger] conditions@[i])->corner,
                    node.min,
                    node.max,
                )
        },
        NodeKind::Branch { children } => {
            &&& !is_unit(node.min, node.max)
            &&& 0 < children@.len() <= 4
            &&& children@.len() == kept_before(node.min, node.max, 4)
            &&& forall|i: int| 0 <= i < children@.len() ==> well_shaped(#[trigger] children@[i])
            &&& forall|k: int|
                0 <= k < 4 && !is_empty(
                    quarter(node.min, node.max, k).0,
                    quarter(node.min, node.max, k).1,
                ) ==> {
                    let child = children@[#[trigger] kept_before(node.min, node.max, k)];
                    child.min == quarter(node.min, node.max, k).0 && child.max == quarter(
                        node.min,
                        node.max,
                        k,
                    ).1
                }
        },
    }
}

/// The point is one of the four corners of the box.
pub open spec fn is_corner(p: Point, min: Point, max: Point) -> bool {
    p == min || p == max || p == upper_right(min, max) || p == bottom_left(min, max)
}

/// Every condition that the first `n` edges of the border put on a cell
/// names a corner of the cell.
pub proof fn lemma_conditions_name_corners(hole: Seq<Point>, n: int, min: Point, max: Point)
    ensures
        cell_conditions(hole, n, min, max) matches Some(found) ==> forall|i: int|
            0 <= i < found.len() ==> is_corner((#[trigger] found[i])->corner, min, max),
    decreases n,
{
    if n > 0 {
        lemma_conditions_name_corners(hole, n - 1, min, max);
    }
}

/// What building makes is well shaped.
pub proof fn lemma_grown_is_well_shaped<R: Fn(Point, Point) -> Relation>(
    relate: R,
    hole: Seq<Point>,
    node: Node,
)
    requires
        grown_from(relate, hole, node),
    ensures
        well_shaped(node),
    decreases node,
{
    match node.kind {
        NodeKind::Branch { children } => {
            assert forall|i: int| 0 <= i < children@.len() implies well_shaped(
                #[trigger] children@[i],
            ) by {
                lemma_grown_is_well_shaped(relate, hole, children@[i]);
            }
            reveal_with_fuel(kept_before, 5);
            let last = quarter(node.min, node.max, 3);
            assert(!is_empty(last.0, last.1));
        },
        NodeKind::ConditionsSet { conditions } => {
            lemma_conditions_name_corners(hole, border_len(hole), node.min, node.max);
        },
        _ => {},
    }
}

/// `relate` gives one answer for each box.
pub open spec fn answers_once<R: Fn(Point, Point) -> Relation>(relate: R) -> bool {
    forall|min: Point, max: Point, first: Relation, second: Relation|
        call_ensures(relate, (min, max), first) && call_ensures(relate, (min, max), second)
            ==> first == second
}

/// Each child of a split box stands for one of the quarters that are not
/// empty.
pub proof fn lemma_quarter_of_child(min: Point, max: Point, i: int)
    requires
        0 <= i < kept_before(min, max, 4),
    ensures
        exists|k: int|
            0 <= k < 4 && !is_empty(quarter(min, max, k).0, quarter(min, max, k).1)
                && #[trigger] kept_before(min, max, k) == i,
{
    reveal_with_fuel(kept_before, 5);
    let e0 = is_empty(quarter(min, max, 0).0, quarter(min, max, 0).1);
    let e1 = is_empty(quarter(min, max, 1).0, quarter(min, max, 1).1);
    let e2 = is_empty(quarter(min, max, 2).0, quarter(min, max, 2).1);
    let e3 = is_empty(quarter(min, max, 3).0, quarter(min, max, 3).1);
    if !e0 && kept_before(min, max, 0) == i {
    } else if !e1 && kept_before(min, max, 1) == i {
    } else if !e2 && kept_before(min, max, 2) == i {
    } else {
        assert(!e3 && kept_before(min, max, 3) == i);
    }
}

/// Two subtrees built for the same box from the same hole, with a `relate`
/// that gives one answer for each box, say the same of every segment.
pub proof fn lemma_rebuilt_subtree_agrees<R: Fn(Point, Point) -> Relation>(
    relate: R,
    hole: Seq<Point>,
    first: Node,
    second: Node,
    from: Point,
    to: Point,
)
    requires
        answers_once(relate),
        grown_from(relate, hole, first),
        grown_from(relate, hole, second),
        first.min == second.min,
        first.max == second.max,
    ensures
        node_verdict(first, from, to) == node_verdict(second, from, to),
    decreases first,
{
    let min = first.min;
    let max = first.max;
    match first.kind {
        NodeKind::Branch { children: ones } => {
            assert(call_ensures(relate, (min, max), Relation::Intersects));
            assert(second.kind is Branch);
            let others = second.kind->Branch_children;
            assert(ones@.len() == others@.len());
            assert forall|i: int| 0 <= i < ones@.len() implies node_verdict(
                #[trigger] ones@[i],
                from,
                to,
            ) == node_verdict(others@[i], from, to) by {
                lemma_quarter_of_child(min, max, i);
                let k = choose|k: int|
                    0 <= k < 4 && !is_empty(quarter(min, max, k).0, quarter(min, max, k).1)
                        && #[trigger] kept_before(min, max, k) == i;
                assert(ones@[i].min == quarter(min, max, k).0);
                assert(others@[i].min == quarter(min, max, k).0);
                lemma_rebuilt_subtree_agrees(relate, hole, ones@[i], others@[i], from, to);
            }
            if segment_meets_rect(from, to, min, max) {
                if exists|i: int|
                    0 <= i < ones@.len() && node_verdict(#[trigger] ones@[i], from, to)
                        == IntersectsNode::Outside {
                    let i = choose|i: int|
                        0 <= i < ones@.len() && node_verdict(#[trigger] ones@[i], from, to)
                            == IntersectsNode::Outside;
                    assert(node_verdict(others@[i], from, to) == IntersectsNode::Outside);
                }
                if exists|i: int|
                    0 <= i < others@.len() && node_verdict(#[trigger] others@[i], from, to)
                        == IntersectsNode::Outside {
                    let i = choose|i: int|
                        0 <= i < others@.len() && node_verdict(#[trigger] others@[i], from, to)
                            == IntersectsNode::Outside;
                    assert(node_verdict(ones@[i], from, to) == IntersectsNode::Outside);
                }
                if exists|i: int|
                    0 <= i < ones@.len() && node_verdict(#[trigger] ones@[i], from, to)
                        == IntersectsNode::Uncertain {
                    let i = choose|i: int|
                        0 <= i < ones@.len() && node_verdict(#[trigger] ones@[i], from, to)
                            == IntersectsNode::Uncertain;
                    assert(node_verdict(others@[i], from, to) == IntersectsNode::Uncertain);
                }
                if exists|i: int|
                    0 <= i < others@.len() && node_verdict(#[trigger] others@[i], from, to)
                        == IntersectsNode::Uncertain {
                    let i = choose|i: int|
                        0 <= i < others@.len() && node_verdict(#[trigger] others@[i], from, to)
                            == IntersectsNode::Uncertain;
                    assert(node_verdict(ones@[i], from, to) == IntersectsNode::Uncertain);
                }
            }
        },
        NodeKind::ConditionsSet { conditions } => {
            assert(call_ensures(relate, (min, max), Relation::Intersects));
            assert(second.kind is ConditionsSet);
        },
        NodeKind::Uncertain => {
            assert(call_ensures(relate, (min, max), Relation::Intersects));
            assert(second.kind is Uncertain);
        },
        NodeKind::Inside => {
            assert(call_ensures(relate, (min, max), Relation::Contains));
            assert(second.kind is Inside);
        },
        NodeKind::Outside => {
            assert(call_ensures(relate, (min, max), Relation::Disjoint));
            assert(second.kind is Outside);
        },
    }
}

/// Two trees built for the same problem, with a `relate` that gives one
/// answer for each box, say the same of every segment of which their
/// oracles say the same.
pub proof fn lemma_rebuilt_tree_agrees<E: InvalidEdge, R: Fn(Point, Point) -> Relation>(
    relate: R,
    hole: Seq<Point>,
    first: &GeoHoleQuadTree<E>,
    second: &GeoHoleQuadTree<E>,
    a: Point,
    b: Point,
)
    requires
        answers_once(relate),
        grown_from(relate, hole, first.root()),
        grown_from(relate, hole, second.root()),
        first.root().min == second.root().min,
        first.root().max == second.root().max,
        first.fallback().edge_invalid(a, b) == second.fallback().edge_invalid(a, b),
    ensures
        first.edge_invalid(a, b) == second.edge_invalid(a, b),
{
    lemma_rebuilt_subtree_agrees(relate, hole, first.root(), second.root(), a, b);
    lemma_rebuilt_subtree_agrees(relate, hole, first.root(), second.root(), b, a);
}

/// The number of children of a node.
pub open spec fn child_count(node: Node) -> int {
    match node.kind {
        NodeKind::Branch { children } => children@.len() as int,
        _ => 0,
    }
}

/// The leaves under the first `k` children of a split node, those of a later
/// child before those of an earlier one; of a leaf, the leaf itself.
pub open spec fn leaves_under(node: Node, k: int) -> Seq<Node>
    decreases node, k,
{
    match node.kind {
        NodeKind::Branch { children } => {
            if 0 < k <= children@.len() {
                leaves_under(children@[k - 1], child_count(children@[k - 1])) + leaves_under(
                    node,
                    k - 1,
                )
            } else {
                Seq::empty()
            }
        },
        _ => seq![node],
    }
}

/// The leaves of a subtree, in the order in which `iter` visits them.
pub open spec fn leaves(node: Node) -> Seq<Node> {
    leaves_under(node, child_count(node))
}

/// The nodes that a sequence of references refers to.
pub open spec fn referred(refs: Seq<&Node>) -> Seq<Node> {
    Seq::new(refs.len(), |i: int| *refs[i])
}

/// Appends the leaves of the subtree to `out`.
fn collect_leaves<'a>(node: &'a Node, out: &mut Vec<&'a Node>)
    ensures
        referred(final(out)@) == referred(old(out)@) + leaves(*node),
    decreases node,
{
    let ghost start = referred(out@);
    match &node.kind {
        NodeKind::Branch { children } => {
            let mut k: usize = children.len();
            while k > 0
                invariant
                    0 <= k <= children@.len(),
                    node.kind == (NodeKind::Branch { children: *children }),
                    referred(out@) + leaves_under(*node, k as int) == start + leaves(*node),
                decreases k,
            {
                let ghost before = referred(out@);
                let ghost child = leaves(children@[k - 1]);
                assert(leaves_under(*node, k as int) == child + leaves_under(*node, k - 1));
                collect_leaves(&children[k - 1], out);
                assert(referred(out@) + leaves_under(*node, k - 1) =~= before + (child
                    + leaves_under(*node, k - 1)));
                k = k - 1;
            }
            assert(referred(out@) + leaves_under(*node, 0) =~= referred(out@));
        },
        _ => {
            out.push(node);
            assert(referred(out@) =~= start + leaves(*node));
        },
    }
}

impl<E: InvalidEdge> GeoHoleQuadTree<E> {
    /// The leaves of the tree: of the quarters of a box those of a later
    /// quarter come first.
    pub fn iter(&self) -> (nodes: Vec<&Node>)
        ensures
            referred(nodes@) == leaves(self.root()),
    {
        let mut nodes: Vec<&Node> = Vec::new();
        collect_leaves(&self.root, &mut nodes);
        assert(referred(nodes@) =~= Seq::<Node>::empty() + leaves(self.root()));
        assert(Seq::<Node>::empty() + leaves(self.root()) =~= leaves(self.root()));
        nodes
    }
}

} // verus!
