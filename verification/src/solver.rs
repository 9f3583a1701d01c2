//! What the solvers share: the problem, the pose to start from, and a mask
//! of the lattice points of the field that lie in the hole.

use crate::bits::{bits, bits_from_elem, bits_get, bits_set};
use crate::geometry::{
    all_in_reach, field, field_area, field_bounds, field_height, field_width, hole_contains,
    hole_holds, in_reach, lattice_position, lemma_lattice_position, within,
};
use crate::problem::{
    bonus_supported, distance, edge_len, edge_stretch, exceeds, first_bonus, lemma_sq_dist_bounds,
    ratio_ppm, score_verdict, Edge, Figure, InvalidEdge, Point, Pose, Problem,
};
use vstd::prelude::*;

pub mod bruteforce;
pub mod bruteforce_hole;
pub mod dancer;

verus! {

/// Why the shared state could not be set up.
#[derive(Clone, Copy, PartialEq, Eq, Debug, Structural)]
pub enum CreateError {
    NoPointsInHole,
    NoPointsInFigure,
}

/// The mask has one bit for each lattice point of the field, row by row, and
/// the bit of a point is set where the point lies in the hole.
pub open spec fn masks_hole(mask: Seq<bool>, hole: Seq<Point>, min: Point, max: Point) -> bool {
    &&& mask.len() == field_area(min, max)
    &&& forall|p: Point|
        within(p, min, max) ==> mask[#[trigger] lattice_position(min, max, p)] == hole_holds(hole, p)
}

/// The score that a pose starts with: its dislikes where it is valid, and
/// the largest number where it is not.
pub open spec fn starting_score<E: InvalidEdge>(problem: &Problem, geo_hole: &E, pose: &Pose) -> i64 {
    match score_verdict(problem, geo_hole, pose.vertices@, first_bonus(pose.bonuses)) {
        Ok(score) => score,
        Err(_) => i64::MAX,
    }
}

/// The state that the solvers share.
pub struct Solver {
    hole_mask: bit_vec::BitVec,
    field_min: Point,
    field_max: Point,
    field_area: usize,
    field_width: i64,
    field_height: i64,
    problem: Problem,
    pose: Pose,
    pose_score: i64,
}

impl Solver {
    #[verifier::type_invariant]
    spec fn masked(&self) -> bool {
        &&& self.field_min.0 <= self.field_max.0
        &&& self.field_min.1 <= self.field_max.1
        &&& in_reach(self.field_min)
        &&& in_reach(self.field_max)
        &&& self.field_width == field_width(self.field_min, self.field_max)
        &&& self.field_height == field_height(self.field_min, self.field_max)
        &&& self.field_area == field_area(self.field_min, self.field_max)
        &&& self.problem.wf()
        &&& masks_hole(bits(self.hole_mask), self.problem.hole@, self.field_min, self.field_max)
    }

    /// The corner of the field with the smallest coordinates.
    pub closed spec fn field_min(&self) -> Point {
        self.field_min
    }

    /// The corner of the field with the largest coordinates.
    pub closed spec fn field_max(&self) -> Point {
        self.field_max
    }

    /// The problem to solve.
    pub closed spec fn problem(&self) -> Problem {
        self.problem
    }

    /// The pose to start from.
    pub closed spec fn pose(&self) -> Pose {
        self.pose
    }

    /// The score of the pose to start from.
    pub closed spec fn pose_score(&self) -> i64 {
        self.pose_score
    }

    /// The field of the problem can be masked: its points are in reach, and
    /// their number fits `usize`.
    pub open spec fn maskable(problem: &Problem) -> bool {
        let all = problem.hole@ + problem.figure.vertices@;
        &&& all_in_reach(all)
        &&& field_area(field(all).0, field(all).1) <= usize::MAX
    }

    /// Sets up the shared state for a problem: masks the hole over the field
    /// of the hole and the figure, and scores the pose to start from, which
    /// is the figure as the problem states it where none is given.
    pub fn new<E: InvalidEdge>(problem: &Problem, geo_hole: &E, pose: Option<Pose>) -> (r: Result<
        Solver,
        CreateError,
    >)
        requires
            Solver::maskable(problem),
            bonus_supported(
                match pose {
                    Some(pose) => first_bonus(pose.bonuses),
                    None => None,
                },
            ),
            problem.scorable(
                match pose {
                    Some(pose) => pose.vertices@,
                    None => problem.figure.vertices@,
                },
            ),
        ensures
            problem.hole@.len() == 0 <==> r == Err::<Solver, CreateError>(CreateError::NoPointsInHole),
            problem.hole@.len() > 0 && problem.figure.vertices@.len() == 0 <==> r == Err::<
                Solver,
                CreateError,
            >(CreateError::NoPointsInFigure),
            r matches Ok(solver) ==> {
                let all = problem.hole@ + problem.figure.vertices@;
                &&& solver.field_min() == field(all).0
                &&& solver.field_max() == field(all).1
                &&& solver.problem().hole@ == problem.hole@
                &&& solver.problem().figure.vertices@ == problem.figure.vertices@
                &&& solver.problem().figure.edges@ == problem.figure.edges@
                &&& solver.problem().epsilon == problem.epsilon
                &&& solver.pose().vertices@ == match pose {
                    Some(pose) => pose.vertices@,
                    None => problem.figure.vertices@,
                }
                &&& solver.pose_score() == starting_score(problem, geo_hole, &solver.pose())
            },
    {
        if problem.hole.len() == 0 {
            return Err(CreateError::NoPointsInHole);
        }
        if problem.figure.vertices.len() == 0 {
            return Err(CreateError::NoPointsInFigure);
        }
        let ghost all = problem.hole@ + problem.figure.vertices@;
        let (field_min, field_max) = field_bounds(
            problem.hole.as_slice(),
            problem.figure.vertices.as_slice(),
        );
        proof {
            let i0 = choose|i: int| 0 <= i < all.len() && (#[trigger] all[i]).0 == field_min.0;
            let i1 = choose|i: int| 0 <= i < all.len() && (#[trigger] all[i]).1 == field_min.1;
            let i2 = choose|i: int| 0 <= i < all.len() && (#[trigger] all[i]).0 == field_max.0;
            let i3 = choose|i: int| 0 <= i < all.len() && (#[trigger] all[i]).1 == field_max.1;
            assert(in_reach(all[i0]) && in_reach(all[i1]) && in_reach(all[i2]) && in_reach(all[i3]));
            assert forall|i: int| 0 <= i < problem.hole@.len() implies in_reach(
                #[trigger] problem.hole@[i],
            ) by {
                assert(all[i] == problem.hole@[i]);
            }
        }
        let field_width: i64 = field_max.0 - field_min.0 + 1;
        let field_height: i64 = field_max.1 - field_min.1 + 1;
        assert(0 < field_width * field_height <= 0x4000_0001 * 0x4000_0001) by (nonlinear_arith)
            requires
                1 <= field_width <= 0x4000_0001,
                1 <= field_height <= 0x4000_0001,
        ;
        let field_area: usize = (field_width * field_height) as usize;
        let mut hole_mask = bits_from_elem(field_area, false);
        let mut y: i64 = field_min.1;
        while y <= field_max.1
            invariant
                field_min.1 <= y <= field_max.1 + 1,
                field_min.0 <= field_max.0,
                in_reach(field_min),
                in_reach(field_max),
                all_in_reach(problem.hole@),
                field_width == crate::geometry::field_width(field_min, field_max),
                field_area == crate::geometry::field_area(field_min, field_max),
                bits(hole_mask).len() == field_area,
                forall|p: Point|
                    within(p, field_min, field_max) && p.1 < y ==> bits(
                        hole_mask,
                    )[#[trigger] lattice_position(field_min, field_max, p)] == hole_holds(
                        problem.hole@,
                        p,
                    ),
            decreases field_max.1 + 1 - y,
        {
            let mut x: i64 = field_min.0;
            while x <= field_max.0
                invariant
                    field_min.1 <= y <= field_max.1,
                    field_min.0 <= x <= field_max.0 + 1,
                    in_reach(field_min),
                    in_reach(field_max),
                    all_in_reach(problem.hole@),
                    field_width == crate::geometry::field_width(field_min, field_max),
                    field_area == crate::geometry::field_area(field_min, field_max),
                    bits(hole_mask).len() == field_area,
                    forall|p: Point|
                        within(p, field_min, field_max) && (p.1 < y || (p.1 == y && p.0 < x))
                            ==> bits(hole_mask)[#[trigger] lattice_position(field_min, field_max, p)]
                            == hole_holds(problem.hole@, p),
                decreases field_max.0 + 1 - x,
            {
                let point = Point(x, y);
                proof {
                    lemma_lattice_position(field_min, field_max, point);
                    lemma_row_start(field_min, field_max, point);
                }
                let ghost before = bits(hole_mask);
                let inside = hole_contains(problem.hole.as_slice(), point);
                let mask_index = (y - field_min.1) * field_width + (x - field_min.0);
                bits_set(&mut hole_mask, mask_index as usize, inside);
                proof {
                    assert forall|p: Point|
                        within(p, field_min, field_max) && (p.1 < y || (p.1 == y && p.0 < x + 1))
                        implies bits(hole_mask)[#[trigger] lattice_position(field_min, field_max, p)]
                        == hole_holds(problem.hole@, p) by {
                        lemma_lattice_position(field_min, field_max, p);
                        if p.0 == x && p.1 == y {
                            assert(p == point);
                        } else {
                            lemma_positions_differ(field_min, field_max, p, point);
                        }
                    }
                }
                x = x + 1;
            }
            y = y + 1;
        }
        let pose = match pose {
            None => Pose { vertices: copy_points(&problem.figure.vertices), bonuses: None },
            Some(pose) => pose,
        };
        let pose_score = match problem.score_pose(geo_hole, &pose) {
            Ok(score) => score,
            Err(_) => i64::MAX,
        };
        let kept = Problem {
            hole: copy_points(&problem.hole),
            figure: Figure {
                edges: copy_edges(&problem.figure.edges),
                vertices: copy_points(&problem.figure.vertices),
            },
            epsilon: problem.epsilon,
            bonuses: problem.bonuses.clone(),
        };
        Ok(
            Solver {
                hole_mask,
                field_min,
                field_max,
                field_area,
                field_width,
                field_height,
                problem: kept,
                pose,
                pose_score,
            },
        )
    }

    /// Tells whether the point is a point of the field that lies in the
    /// hole.
    pub fn is_hole(&self, point: &Point) -> (hit: bool)
        ensures
            hit == (within(*point, self.field_min(), self.field_max()) && hole_holds(
                self.problem().hole@,
                *point,
            )),
    {
        proof {
            use_type_invariant(self);
        }
        if point.0 < self.field_min.0 || point.0 > self.field_max.0 || point.1 < self.field_min.1
            || point.1 > self.field_max.1 {
            return false;
        }
        proof {
            lemma_lattice_position(self.field_min, self.field_max, *point);
            lemma_row_start(self.field_min, self.field_max, *point);
        }
        let mask_index = (point.1 - self.field_min.1) * self.field_width + (point.0
            - self.field_min.0);
        match bits_get(&self.hole_mask, mask_index as usize) {
            Some(bit) => bit,
            None => false,
        }
    }
}

/// The number of the first point of a row lies between zero and the number
/// of any point of the row, and a field in reach has an area that fits 64
/// bits.
proof fn lemma_row_start(min: Point, max: Point, p: Point)
    requires
        within(p, min, max),
        in_reach(min),
        in_reach(max),
    ensures
        0 <= (p.1 - min.1) * field_width(min, max) <= lattice_position(min, max, p),
        field_area(min, max) <= 0x4000_0001 * 0x4000_0001,
{
    let w = field_width(min, max);
    let h = field_height(min, max);
    let row = p.1 - min.1;
    assert(0 <= row * w) by (nonlinear_arith)
        requires
            0 <= row,
            0 < w,
    ;
    assert(w * h <= 0x4000_0001 * 0x4000_0001) by (nonlinear_arith)
        requires
            1 <= w <= 0x4000_0001,
            1 <= h <= 0x4000_0001,
    ;
}

/// Two different points of the field have different numbers.
proof fn lemma_positions_differ(min: Point, max: Point, p: Point, q: Point)
    requires
        within(p, min, max),
        within(q, min, max),
        p != q,
    ensures
        lattice_position(min, max, p) != lattice_position(min, max, q),
{
    lemma_lattice_position(min, max, p);
    lemma_lattice_position(min, max, q);
}

/// A copy of a list of points.
fn copy_points(points: &Vec<Point>) -> (copy: Vec<Point>)
    ensures
        copy@ == points@,
{
    let copy = points.clone();
    assert(copy@ =~= points@);
    copy
}

/// A copy of a list of edges.
fn copy_edges(edges: &Vec<Edge>) -> (copy: Vec<Edge>)
    ensures
        copy@ == edges@,
{
    let copy = edges.clone();
    assert(copy@ =~= edges@);
    copy
}

/// Tells whether the edge, placed on `vertices`, keeps its length within the
/// problem's tolerance, and gives its stretch ratio in millionths.
pub fn is_edge_ratio_valid(edge: &Edge, vertices: &[Point], problem: &Problem) -> (r: (bool, u128))
    requires
        edge.0 < vertices@.len(),
        edge.1 < vertices@.len(),
        edge.0 < problem.figure.vertices@.len(),
        edge.1 < problem.figure.vertices@.len(),
        edge_len(*edge, vertices@) <= i64::MAX,
        edge_len(*edge, problem.figure.vertices@) <= i64::MAX,
    ensures
        r.0 == !exceeds(
            edge_len(*edge, problem.figure.vertices@),
            edge_len(*edge, vertices@),
            problem.epsilon as int,
        ),
        r.1 == ratio_ppm(edge_len(*edge, problem.figure.vertices@), edge_len(*edge, vertices@)),
{
    proof {
        lemma_sq_dist_bounds(
            problem.figure.vertices@[edge.0 as int],
            problem.figure.vertices@[edge.1 as int],
        );
        lemma_sq_dist_bounds(vertices@[edge.0 as int], vertices@[edge.1 as int]);
    }
    let sample_sq_dist = distance(
        &problem.figure.vertices[edge.0],
        &problem.figure.vertices[edge.1],
    );
    let try_sq_dist = distance(&vertices[edge.0], &vertices[edge.1]);
    let (ratio, over) = edge_stretch(sample_sq_dist, try_sq_dist, problem.epsilon);
    (!over, ratio)
}

} // verus!
