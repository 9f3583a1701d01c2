use figure_fit::geo_hole_quad_tree::{
    corner_touch, quad_tree_edge_node_intersection, GeoHoleQuadTree, IntersectsNode, Node, NodeKind,
    Relation,
};
use figure_fit::wide::{exceeds, plus, times};
use figure_fit::problem::{
    BoundingBox, Edge, Figure, GeoExportError, GeoImportError, InvalidEdge, Point, Problem,
    SquareRing,
};

/// An oracle that lets no segment pass.
struct Shut;

impl InvalidEdge for Shut {
    fn edge_invalid(&self, _edge_from: Point, _edge_to: Point) -> bool {
        true
    }

    fn is_edge_invalid(&self, _edge_from: Point, _edge_to: Point) -> bool {
        true
    }
}

/// The hole as a box from (0,0) to (4,4), told without a polygon.
fn relate_to_box(min: Point, max: Point) -> Relation {
    if max.0 < 0 || max.1 < 0 || min.0 > 4 || min.1 > 4 {
        Relation::Disjoint
    } else if min.0 >= 0 && min.1 >= 0 && max.0 <= 4 && max.1 <= 4 {
        Relation::Contains
    } else {
        Relation::Intersects
    }
}

fn box_problem() -> Problem {
    Problem {
        hole: vec![Point(0, 0), Point(4, 0), Point(4, 4), Point(0, 4)],
        figure: Figure { edges: vec![Edge(0, 1)], vertices: vec![Point(1, 1), Point(3, 3)] },
        epsilon: 0,
        bonuses: None,
    }
}

fn count(node: &Node) -> usize {
    match &node.kind {
        NodeKind::Branch { children } => children.iter().map(count).sum(),
        _ => 1,
    }
}

#[test]
fn the_leaves_cover_the_box_of_the_tree() {
    let problem = box_problem();
    let tree = GeoHoleQuadTree::new(&problem, Shut, &relate_to_box).unwrap();
    let leaves = tree.iter();
    assert!(leaves.len() > 4);
    let mut area = 0;
    for leaf in &leaves {
        assert!(!matches!(leaf.kind, NodeKind::Branch { .. }));
        assert!(leaf.min.0 < leaf.max.0 && leaf.min.1 < leaf.max.1);
        area += (leaf.max.0 - leaf.min.0) * (leaf.max.1 - leaf.min.1);
    }
    // The box of the tree runs from (-2,-2) to (7,7).
    assert_eq!(area, 81);
    // The last quarter is visited first.
    assert_eq!(leaves[0].max, Point(7, 7));
    assert_eq!(leaves[leaves.len() - 1].min, Point(-2, -2));
    let inside = leaves.iter().filter(|leaf| matches!(leaf.kind, NodeKind::Inside)).count();
    let outside = leaves.iter().filter(|leaf| matches!(leaf.kind, NodeKind::Outside)).count();
    assert!(inside > 0 && outside > 0);
}

#[test]
fn a_tree_falls_back_where_it_cannot_tell() {
    let problem = box_problem();
    let tree = GeoHoleQuadTree::new(&problem, Shut, &relate_to_box).unwrap();
    // Well inside the hole no cell is in doubt.
    assert_eq!(tree.is_edge_invalid(Point(1, 1), Point(3, 3)), false);
    assert_eq!(tree.is_edge_invalid(Point(3, 1), Point(1, 2)), false);
    // Along the border the cells are, and the oracle behind the tree shuts.
    assert_eq!(tree.is_edge_invalid(Point(0, 0), Point(4, 0)), true);
    assert_eq!(tree.is_edge_invalid(Point(1, 1), Point(6, 1)), true);
}

#[test]
fn a_box_holds_its_points_in_order() {
    let points = BoundingBox(Point(2, 1), Point(1, -1)).point_set();
    assert_eq!(points, vec![Point(1, 0), Point(1, 1), Point(2, 0), Point(2, 1)]);
    assert_eq!(BoundingBox(Point(3, 3), Point(3, 3)).point_set(), vec![Point(3, 3)]);
    assert_eq!(BoundingBox(Point(-3, 3), Point(-1, 5)).point_set(), vec![]);
    let ring = SquareRing(
        BoundingBox(Point(0, 0), Point(2, 2)),
        BoundingBox(Point(2, 2), Point(0, 0)),
    );
    assert_eq!(
        ring.point_set(),
        vec![
            Point(0, 0),
            Point(0, 1),
            Point(0, 2),
            Point(1, 0),
            Point(1, 2),
            Point(2, 0),
            Point(2, 1),
            Point(2, 2),
        ]
    );
}

#[test]
fn points_are_ordered_by_x_then_y() {
    assert!(Point(1, 9).is_before(&Point(2, 0)));
    assert!(Point(1, 1).is_before(&Point(1, 2)));
    assert!(!Point(1, 2).is_before(&Point(1, 2)));
    assert!(!Point(2, 0).is_before(&Point(1, 9)));
    assert!(Point(-5, 0).is_before(&Point(-4, -9)));
}

#[test]
fn a_figure_takes_as_many_points_as_it_has_vertices() {
    let mut figure = Figure {
        edges: vec![Edge(0, 1)],
        vertices: vec![Point(1, 1), Point(3, 3)],
    };
    assert_eq!(figure.export_to_geo(), Ok(vec![Point(1, 1), Point(3, 3)]));
    assert_eq!(
        figure.import_from_geo(vec![Point(0, 0)]),
        Err(GeoImportError::PointsCountMismatch { expected: 2, provided: 1 })
    );
    assert_eq!(figure.vertices, vec![Point(1, 1), Point(3, 3)]);
    assert_eq!(figure.import_from_geo(vec![Point(0, 0), Point(2, 2)]), Ok(()));
    assert_eq!(figure.vertices, vec![Point(0, 0), Point(2, 2)]);
    assert_eq!(figure.edges, vec![Edge(0, 1)]);
    let empty = Figure { edges: vec![], vertices: vec![] };
    assert_eq!(empty.export_to_geo(), Err(GeoExportError::NoCentroidBuilt));
}

#[test]
fn numbers_of_any_size_are_held_in_limbs() {
    let max = u64::MAX;
    // (2^64 - 1) * (2^64 - 1) = 2^128 - 2^65 + 1
    assert_eq!(times(&vec![max], max), vec![1, max - 1]);
    assert_eq!(times(&vec![], 7), vec![0]);
    assert_eq!(times(&vec![5, 1], 0), vec![0, 0, 0]);
    assert_eq!(times(&vec![1 << 63, 3], 4), vec![0, 14, 0]);
    assert_eq!(plus(&vec![max, max], &vec![1]), vec![0, 0, 1]);
    assert_eq!(plus(&vec![3], &vec![4, 5, 6]), vec![7, 5, 6, 0]);
    assert_eq!(plus(&vec![], &vec![]), vec![0]);
    assert!(exceeds(&vec![0, 1], &vec![max]));
    assert!(!exceeds(&vec![max], &vec![0, 1]));
    assert!(!exceeds(&vec![7, 0, 0], &vec![7]));
    assert!(exceeds(&vec![8, 0, 0], &vec![7]));
    assert!(!exceeds(&vec![], &vec![0, 0]));
    assert!(exceeds(&vec![0, 0, 1], &vec![max, max]));
    assert!(exceeds(&vec![2, 9], &vec![3, 8]));
    assert!(!exceeds(&vec![3, 8], &vec![2, 9]));
}

fn turn(p: Point, q: Point, r: Point) -> i64 {
    (q.0 - p.0) * (r.1 - q.1) - (q.1 - p.1) * (r.0 - q.0)
}

fn between(value: i64, bound_1: i64, bound_2: i64) -> bool {
    if bound_1 < bound_2 {
        bound_1 <= value && value <= bound_2
    } else {
        bound_2 <= value && value <= bound_1
    }
}

fn in_box(point: Point, corner_1: Point, corner_2: Point) -> bool {
    between(point.0, corner_1.0, corner_2.0) && between(point.1, corner_1.1, corner_2.1)
}

fn holds(from: Point, to: Point, point: Point) -> bool {
    turn(from, to, point) == 0 && in_box(point, from, to)
}

fn meet(a_from: Point, a_to: Point, b_from: Point, b_to: Point) -> bool {
    if a_from == a_to {
        holds(b_from, b_to, a_from)
    } else if turn(a_from, a_to, b_from).signum() != turn(a_from, a_to, b_to).signum() {
        turn(b_from, b_to, a_from).signum() != turn(b_from, b_to, a_to).signum()
    } else if turn(a_from, a_to, b_from) == 0 {
        in_box(b_from, a_from, a_to) || in_box(b_to, a_from, a_to) || in_box(a_to, b_from, b_to)
    } else {
        false
    }
}

fn meets_box(from: Point, to: Point, low: Point, high: Point) -> bool {
    let low_high = Point(low.0, high.1);
    let high_low = Point(high.0, low.1);
    in_box(from, low, high)
        || in_box(to, low, high)
        || meet(low, high_low, from, to)
        || meet(high_low, high, from, to)
        || meet(low_high, high, from, to)
        || meet(low, low_high, from, to)
}

#[test]
fn segments_meet_boxes_as_stated() {
    let mut met = 0;
    for (low, high) in [(Point(0, 0), Point(2, 1)), (Point(1, 1), Point(2, 2)), (Point(0, 1), Point(3, 1))] {
        let leaf = Node { min: low, max: high, kind: NodeKind::Inside };
        for ax in -2..=4 {
            for ay in -2..=4 {
                for bx in -2..=4 {
                    for by in -2..=4 {
                        let from = Point(ax, ay);
                        let to = Point(bx, by);
                        let verdict = quad_tree_edge_node_intersection(&leaf, from, to);
                        let expected = meets_box(from, to, low, high);
                        assert_eq!(verdict != IntersectsNode::DoesNot, expected, "{:?} {:?}", from, to);
                        if expected {
                            met += 1;
                        }
                    }
                }
            }
        }
    }
    assert!(met > 1000);
}

#[test]
fn corners_are_touched_as_stated() {
    let min = Point(0, 0);
    let max = Point(1, 1);
    let upper_right = Point(1, 0);
    let bottom_left = Point(0, 1);
    for ax in -3..=4 {
        for ay in -3..=4 {
            for bx in -3..=4 {
                for by in -3..=4 {
                    let from = Point(ax, ay);
                    let to = Point(bx, by);
                    let expected = holds(from, to, upper_right)
                        && !meet(from, to, max, bottom_left)
                        && !meet(from, to, bottom_left, min);
                    assert_eq!(corner_touch(from, to, min, max, upper_right), expected);
                    let expected = holds(from, to, min)
                        && !meet(from, to, upper_right, max)
                        && !meet(from, to, max, bottom_left);
                    assert_eq!(corner_touch(from, to, min, max, min), expected);
                }
            }
        }
    }
}
