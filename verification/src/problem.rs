//! The data model of a placement problem and the scoring of a candidate pose.

use crate::geometry::{all_in_reach, hole_contains, hole_holds, in_reach};
use crate::wide::{plus, times, value};
use vstd::prelude::*;

verus! {

/// A point of the integer lattice.
#[derive(Clone, Copy, PartialEq, Eq, PartialOrd, Ord, Hash, Debug, Structural)]
pub struct Point(pub i64, pub i64);

/// Whether `a` comes before `b` in the order of the points: by `x`, then by
/// `y`.
pub open spec fn earlier(a: Point, b: Point) -> bool {
    a.0 < b.0 || (a.0 == b.0 && a.1 < b.1)
}

impl Point {
    /// Tells whether this point comes before `other` in the order of the
    /// points.
    pub fn is_before(&self, other: &Point) -> (before: bool)
        ensures
            before == earlier(*self, *other),
    {
        self.0 < other.0 || (self.0 == other.0 && self.1 < other.1)
    }
}

/// Of two different points one comes before the other, and never both ways.
pub proof fn lemma_points_ordered(a: Point, b: Point)
    ensures
        a != b ==> (earlier(a, b) != earlier(b, a)),
        a == b ==> !earlier(a, b),
{
}

/// An edge of the figure, as a pair of indices into a vertex sequence.
#[derive(Clone, Copy, PartialEq, Eq, Debug, Structural)]
pub struct Edge(pub usize, pub usize);

/// The number of a problem.
#[derive(Clone, Copy, PartialEq, Eq, Debug, Structural)]
pub struct ProblemId(pub usize);

/// The kinds of rule relaxation that a problem can hand out.
#[derive(Clone, Copy, PartialEq, Eq, Debug, Structural)]
pub enum ProblemBonusType {
    BreakALeg,
    Globalist,
    Wallhack,
    Superflex,
}

/// A bonus that is unlocked by placing a vertex on `position`.
#[derive(Clone, Copy, PartialEq, Eq, Debug, Structural)]
pub struct ProblemBonus {
    pub position: Point,
    pub bonus: ProblemBonusType,
    pub problem: ProblemId,
}

/// A bonus that a pose makes use of.
#[derive(Clone, Copy, PartialEq, Eq, Debug, Structural)]
pub enum PoseBonus {
    BreakALeg { problem: ProblemId, edge: Edge },
    Globalist { problem: ProblemId },
    Wallhack { problem: ProblemId },
    Superflex { problem: ProblemId },
}

/// The deformable shape: vertices joined by edges.
#[derive(Clone, PartialEq, Eq, Debug)]
pub struct Figure {
    pub edges: Vec<Edge>,
    pub vertices: Vec<Point>,
}

/// A hole, the figure to fit into it, and the tolerance on edge lengths in
/// parts per million.
#[derive(Clone, PartialEq, Eq, Debug)]
pub struct Problem {
    pub hole: Vec<Point>,
    pub figure: Figure,
    pub epsilon: u64,
    pub bonuses: Option<Vec<ProblemBonus>>,
}

/// A candidate placement of the figure's vertices.
#[derive(Clone, PartialEq, Eq, Debug)]
pub struct Pose {
    pub vertices: Vec<Point>,
    pub bonuses: Option<Vec<PoseBonus>>,
}

/// Why a pose was rejected.
#[derive(Clone, Copy, PartialEq, Eq, Debug, Structural)]
pub enum PoseValidationError {
    /// The pose has another number of vertices than the figure.
    VerticeCountMismatch,
    /// Edges are stretched beyond the tolerance. `ratio_sum` is the sum of
    /// the edges' stretch ratios in whole millionths.
    BrokenEdgesFound { ratio_sum: u128, broken_edges_count: usize },
    /// This many edges leave the hole.
    EdgesNotFitHole(usize),
}

/// The squared Euclidean distance between two points.
pub open spec fn sq_dist(p: Point, q: Point) -> int {
    (p.0 - q.0) * (p.0 - q.0) + (p.1 - q.1) * (p.1 - q.1)
}

/// A squared distance is never negative, and where it fits 64 bits each
/// coordinate difference is short.
pub proof fn lemma_sq_dist_bounds(p: Point, q: Point)
    ensures
        sq_dist(p, q) >= 0,
        sq_dist(p, q) == sq_dist(q, p),
        sq_dist(p, q) <= i64::MAX ==> -0x1_0000_0000 <= p.0 - q.0 <= 0x1_0000_0000,
        sq_dist(p, q) <= i64::MAX ==> -0x1_0000_0000 <= p.1 - q.1 <= 0x1_0000_0000,
        sq_dist(p, q) <= i64::MAX ==> (p.0 - q.0) * (p.0 - q.0) <= i64::MAX,
        sq_dist(p, q) <= i64::MAX ==> (p.1 - q.1) * (p.1 - q.1) <= i64::MAX,
{
    let dx = p.0 - q.0;
    let dy = p.1 - q.1;
    assert(dx * dx >= 0 && dy * dy >= 0) by (nonlinear_arith);
    assert(dx * dx == (q.0 - p.0) * (q.0 - p.0)) by (nonlinear_arith)
        requires
            dx == p.0 - q.0,
    ;
    assert(dy * dy == (q.1 - p.1) * (q.1 - p.1)) by (nonlinear_arith)
        requires
            dy == p.1 - q.1,
    ;
    assert(dx * dx <= 0x7fff_ffff_ffff_ffff ==> -0x1_0000_0000 <= dx <= 0x1_0000_0000)
        by (nonlinear_arith);
    assert(dy * dy <= 0x7fff_ffff_ffff_ffff ==> -0x1_0000_0000 <= dy <= 0x1_0000_0000)
        by (nonlinear_arith);
}

/// The squared distance between two points.
pub fn distance(p: &Point, q: &Point) -> (d: i64)
    requires
        sq_dist(*p, *q) <= i64::MAX,
    ensures
        d == sq_dist(*p, *q),
{
    proof {
        lemma_sq_dist_bounds(*p, *q);
    }
    let dx: i64 = p.0 - q.0;
    let dy: i64 = p.1 - q.1;
    dx * dx + dy * dy
}

/// An oracle that tells whether the segment between two lattice points
/// leaves the hole. The verdict is a function of the oracle and the two
/// points: asking twice gives the same answer.
pub trait InvalidEdge {
    /// The oracle's verdict on the segment from `edge_from` to `edge_to`.
    spec fn edge_invalid(&self, edge_from: Point, edge_to: Point) -> bool;

    /// Computes the verdict.
    fn is_edge_invalid(&self, edge_from: Point, edge_to: Point) -> (invalid: bool)
        ensures
            invalid == self.edge_invalid(edge_from, edge_to),
    ;
}

/// The distance between two integers.
pub open spec fn gap(a: int, b: int) -> int {
    if a >= b {
        a - b
    } else {
        b - a
    }
}

/// The stretch ratio `|after / before - 1|` of an edge in whole millionths,
/// rounded down. An edge that had no length and gained one counts as
/// stretched without bound.
pub open spec fn ratio_ppm(before: int, after: int) -> int {
    if before > 0 {
        gap(after, before) * 1_000_000 / before
    } else if after == before {
        0
    } else {
        u128::MAX as int
    }
}

/// Whether the stretch ratio `|after / before - 1|` exceeds `epsilon`
/// millionths. This is exact: nothing is rounded.
pub open spec fn exceeds(before: int, after: int, epsilon: int) -> bool {
    gap(after, before) * 1_000_000 > epsilon * before
}

/// Every edge joins two of `n` vertices.
pub open spec fn edges_in_range(edges: Seq<Edge>, n: int) -> bool {
    forall|i: int| 0 <= i < edges.len() ==> (#[trigger] edges[i]).0 < n && edges[i].1 < n
}

/// The squared length of each edge, measured on `vertices`, fits 64 bits.
pub open spec fn edge_lengths_fit(edges: Seq<Edge>, vertices: Seq<Point>) -> bool {
    forall|i: int|
        0 <= i < edges.len() ==> sq_dist(
            vertices[(#[trigger] edges[i]).0 as int],
            vertices[edges[i].1 as int],
        ) <= i64::MAX
}

/// The squared length of an edge on a vertex sequence.
pub open spec fn edge_len(e: Edge, vertices: Seq<Point>) -> int {
    sq_dist(vertices[e.0 as int], vertices[e.1 as int])
}

/// The sum of the stretch ratios of all edges, in millionths.
pub open spec fn ratio_sum(edges: Seq<Edge>, orig: Seq<Point>, pose: Seq<Point>) -> int
    decreases edges.len(),
{
    if edges.len() == 0 {
        0
    } else {
        ratio_sum(edges.drop_last(), orig, pose) + ratio_ppm(
            edge_len(edges.last(), orig),
            edge_len(edges.last(), pose),
        )
    }
}

/// The number of edges whose stretch ratio exceeds `epsilon` millionths.
pub open spec fn stretched_count(
    edges: Seq<Edge>,
    orig: Seq<Point>,
    pose: Seq<Point>,
    epsilon: int,
) -> int
    decreases edges.len(),
{
    if edges.len() == 0 {
        0
    } else {
        stretched_count(edges.drop_last(), orig, pose, epsilon) + if exceeds(
            edge_len(edges.last(), orig),
            edge_len(edges.last(), pose),
            epsilon,
        ) {
            1int
        } else {
            0int
        }
    }
}

/// The sum of the stretch ratios of the edges that had a length to begin
/// with, as a fraction without rounding: its numerator and its denominator,
/// which is positive.
pub open spec fn ratio_fraction(edges: Seq<Edge>, orig: Seq<Point>, pose: Seq<Point>) -> (int, int)
    decreases edges.len(),
{
    if edges.len() == 0 {
        (0, 1)
    } else {
        let rest = ratio_fraction(edges.drop_last(), orig, pose);
        let before = edge_len(edges.last(), orig);
        let after = edge_len(edges.last(), pose);
        if before > 0 {
            (rest.0 * before + gap(after, before) * rest.1, rest.1 * before)
        } else {
            rest
        }
    }
}

/// Some edge that had no length has one in the pose: its stretch ratio is
/// beyond any number.
pub open spec fn grows_from_nothing(edges: Seq<Edge>, orig: Seq<Point>, pose: Seq<Point>) -> bool
    decreases edges.len(),
{
    if edges.len() == 0 {
        false
    } else {
        grows_from_nothing(edges.drop_last(), orig, pose) || (edge_len(edges.last(), orig) == 0
            && edge_len(edges.last(), pose) > 0)
    }
}

/// Whether the sum of the stretch ratios of all edges exceeds the pooled
/// budget of `epsilon` millionths for each edge. This is exact: the sum is
/// taken as a fraction, and nothing is rounded.
pub open spec fn over_budget(
    edges: Seq<Edge>,
    orig: Seq<Point>,
    pose: Seq<Point>,
    epsilon: int,
) -> bool {
    let sum = ratio_fraction(edges, orig, pose);
    grows_from_nothing(edges, orig, pose) || sum.0 * 1_000_000 > edges.len() * epsilon * sum.1
}

/// A sum of ratios as it is reported: capped at the largest 128-bit number.
pub open spec fn capped(sum: int) -> u128 {
    if sum > u128::MAX {
        u128::MAX
    } else {
        sum as u128
    }
}

/// The outcome of the stretch check.
///
/// With `Globalist` no single edge is forbidden: the sum of all ratios,
/// taken without rounding, must not exceed the pooled budget of `epsilon`
/// millionths per edge. Otherwise each edge is held to `epsilon` by itself,
/// and `Superflex` forgives one edge that exceeds it. The sum of the ratios
/// that is reported is rounded down to whole millionths, edge by edge.
pub open spec fn stretch_verdict(
    edges: Seq<Edge>,
    orig: Seq<Point>,
    pose: Seq<Point>,
    epsilon: int,
    bonus: Option<PoseBonus>,
) -> Result<u128, PoseValidationError> {
    let sum = ratio_sum(edges, orig, pose);
    if bonus matches Some(PoseBonus::Globalist { .. }) {
        if over_budget(edges, orig, pose, epsilon) {
            Err(
                PoseValidationError::BrokenEdgesFound {
                    ratio_sum: capped(sum),
                    broken_edges_count: 0,
                },
            )
        } else {
            Ok(capped(sum))
        }
    } else {
        let stretched = stretched_count(edges, orig, pose, epsilon);
        let forgiven: int = if bonus matches Some(PoseBonus::Superflex { .. }) {
            1
        } else {
            0
        };
        if stretched > forgiven {
            Err(
                PoseValidationError::BrokenEdgesFound {
                    ratio_sum: capped(sum),
                    broken_edges_count: (stretched - forgiven) as usize,
                },
            )
        } else {
            Ok(capped(sum))
        }
    }
}

/// The ratio sum and the count of stretched edges are never negative, and no
/// more edges are stretched than there are.
pub proof fn lemma_stretch_bounds(
    edges: Seq<Edge>,
    orig: Seq<Point>,
    pose: Seq<Point>,
    epsilon: int,
)
    ensures
        0 <= ratio_sum(edges, orig, pose),
        0 <= stretched_count(edges, orig, pose, epsilon) <= edges.len(),
    decreases edges.len(),
{
    if edges.len() > 0 {
        lemma_stretch_bounds(edges.drop_last(), orig, pose, epsilon);
        let before = edge_len(edges.last(), orig);
        let after = edge_len(edges.last(), pose);
        lemma_ratio_ppm_bounds(before, after);
    }
}

/// A ratio is never negative.
pub proof fn lemma_ratio_ppm_bounds(before: int, after: int)
    ensures
        0 <= ratio_ppm(before, after),
{
    if before > 0 {
        let g = gap(after, before) * 1_000_000;
        assert(g >= 0);
        assert(g / before >= 0) by (nonlinear_arith)
            requires
                g >= 0,
                before > 0,
        ;
    }
}

/// The stretch ratio of one edge in millionths, and whether it exceeds
/// `epsilon` millionths.
pub(crate) fn edge_stretch(before: i64, after: i64, epsilon: u64) -> (r: (u128, bool))
    requires
        before >= 0,
        after >= 0,
    ensures
        r.0 == ratio_ppm(before as int, after as int),
        r.1 == exceeds(before as int, after as int, epsilon as int),
{
    let delta: u64 = if after >= before {
        (after - before) as u64
    } else {
        (before - after) as u64
    };
    let scaled: u128 = (delta as u128) * 1_000_000u128;
    assert((epsilon as int) * (before as int) <= 0xffff_ffff_ffff_ffff * 0x7fff_ffff_ffff_ffff)
        by (nonlinear_arith)
        requires
            0 <= epsilon <= 0xffff_ffff_ffff_ffff,
            0 <= before <= 0x7fff_ffff_ffff_ffff,
    ;
    let allowed: u128 = (epsilon as u128) * (before as u128);
    let over = scaled > allowed;
    let ratio: u128 = if before > 0 {
        scaled / (before as u128)
    } else if delta == 0 {
        0
    } else {
        u128::MAX
    };
    (ratio, over)
}

/// The outcome of the count check: a pose must place exactly the figure's
/// vertices.
pub open spec fn count_verdict(expected: int, provided: int) -> Result<(), PoseValidationError> {
    if expected == provided {
        Ok(())
    } else {
        Err(PoseValidationError::VerticeCountMismatch)
    }
}

/// Whether a bonus is one that scoring knows how to apply. Breaking a leg
/// changes the figure itself and is not among them.
pub open spec fn bonus_supported(bonus: Option<PoseBonus>) -> bool {
    !(bonus matches Some(PoseBonus::BreakALeg { .. }))
}

impl Problem {
    /// The figure's edges join vertices that exist, and their squared
    /// lengths fit 64 bits.
    pub open spec fn wf(&self) -> bool {
        &&& edges_in_range(self.figure.edges@, self.figure.vertices@.len() as int)
        &&& edge_lengths_fit(self.figure.edges@, self.figure.vertices@)
    }

    /// The edges of the figure can be measured on `pose`: each joins two
    /// vertices of it, at a squared distance that fits 64 bits.
    pub open spec fn measurable(&self, pose: Seq<Point>) -> bool {
        &&& edges_in_range(self.figure.edges@, pose.len() as int)
        &&& edge_lengths_fit(self.figure.edges@, pose)
    }

    /// Checks that the pose places as many vertices as the figure has.
    pub fn score_vertices_check_count(
        &self,
        pose_vertices: &[Point],
        bonus: Option<PoseBonus>,
    ) -> (r: Result<(), PoseValidationError>)
        requires
            bonus_supported(bonus),
        ensures
            r == count_verdict(self.figure.vertices@.len() as int, pose_vertices@.len() as int),
    {
        if self.figure.vertices.len() != pose_vertices.len() {
            return Err(PoseValidationError::VerticeCountMismatch);
        }
        Ok(())
    }

    /// Tells whether the stretch of all edges together exceeds the pooled
    /// budget. The sum of the ratios is kept as a fraction of two numbers of
    /// any size, so that nothing is rounded.
    fn pool_spent(&self, pose_vertices: &[Point]) -> (spent: bool)
        requires
            self.wf(),
            self.measurable(pose_vertices@),
        ensures
            spent == over_budget(
                self.figure.edges@,
                self.figure.vertices@,
                pose_vertices@,
                self.epsilon as int,
            ),
    {
        let ghost edges = self.figure.edges@;
        let ghost orig = self.figure.vertices@;
        let ghost pose = pose_vertices@;
        let mut numerator: Vec<u64> = Vec::new();
        let mut denominator: Vec<u64> = Vec::new();
        denominator.push(1);
        let mut sprung = false;
        let mut i: usize = 0;
        proof {
            crate::wide::lemma_push(Seq::<u64>::empty(), 1u64);
            assert(edges.take(0) =~= Seq::<Edge>::empty());
        }
        while i < self.figure.edges.len()
            invariant
                0 <= i <= edges.len(),
                edges == self.figure.edges@,
                orig == self.figure.vertices@,
                pose == pose_vertices@,
                self.wf(),
                self.measurable(pose),
                value(numerator@) == ratio_fraction(edges.take(i as int), orig, pose).0,
                value(denominator@) == ratio_fraction(edges.take(i as int), orig, pose).1,
                sprung == grows_from_nothing(edges.take(i as int), orig, pose),
            decreases edges.len() - i,
        {
            let edge = self.figure.edges[i];
            proof {
                assert(edges.take(i + 1).drop_last() =~= edges.take(i as int));
                assert(edges.take(i + 1).last() == edges[i as int]);
                lemma_sq_dist_bounds(orig[edge.0 as int], orig[edge.1 as int]);
                lemma_sq_dist_bounds(pose[edge.0 as int], pose[edge.1 as int]);
            }
            let d_before = distance(&self.figure.vertices[edge.0], &self.figure.vertices[edge.1]);
            let d_after = distance(&pose_vertices[edge.0], &pose_vertices[edge.1]);
            if d_before > 0 {
                let delta: u64 = if d_after >= d_before {
                    (d_after - d_before) as u64
                } else {
                    (d_before - d_after) as u64
                };
                let scaled = times(&numerator, d_before as u64);
                let share = times(&denominator, delta);
                let ghost n = value(numerator@) as int;
                let ghost d = value(denominator@) as int;
                numerator = plus(&scaled, &share);
                denominator = times(&denominator, d_before as u64);
                assert(n * d_before + delta * d == n * d_before + d * delta && d * d_before == d
                    * d_before) by (nonlinear_arith);
            } else if d_after > 0 {
                sprung = true;
            }
            i = i + 1;
        }
        proof {
            assert(edges.take(edges.len() as int) =~= edges);
        }
        let spent = times(&numerator, 1_000_000);
        let per_edge = times(&denominator, self.figure.edges.len() as u64);
        let budget = times(&per_edge, self.epsilon);
        proof {
            let d = value(denominator@) as int;
            let count = edges.len() as int;
            let epsilon = self.epsilon as int;
            assert(d * count * epsilon == count * epsilon * d) by (nonlinear_arith);
        }
        sprung || crate::wide::exceeds(&spent, &budget)
    }

    /// Checks that no edge is stretched or compressed beyond the tolerance,
    /// and returns the sum of the stretch ratios in millionths.
    pub fn score_vertices_check_stretching(
        &self,
        pose_vertices: &[Point],
        bonus: Option<PoseBonus>,
    ) -> (r: Result<u128, PoseValidationError>)
        requires
            bonus_supported(bonus),
            self.wf(),
            self.measurable(pose_vertices@),
        ensures
            r == stretch_verdict(
                self.figure.edges@,
                self.figure.vertices@,
                pose_vertices@,
                self.epsilon as int,
                bonus,
            ),
    {
        let ghost edges = self.figure.edges@;
        let ghost orig = self.figure.vertices@;
        let ghost pose = pose_vertices@;
        let ghost epsilon = self.epsilon as int;
        let mut sum: u128 = 0;
        let mut stretched: usize = 0;
        let mut i: usize = 0;
        while i < self.figure.edges.len()
            invariant
                0 <= i <= edges.len(),
                edges == self.figure.edges@,
                orig == self.figure.vertices@,
                pose == pose_vertices@,
                epsilon == self.epsilon as int,
                self.wf(),
                self.measurable(pose),
                sum == capped(ratio_sum(edges.take(i as int), orig, pose)),
                stretched == stretched_count(edges.take(i as int), orig, pose, epsilon),
            decreases edges.len() - i,
        {
            let edge = self.figure.edges[i];
            proof {
                assert(edges.take(i + 1).drop_last() =~= edges.take(i as int));
                assert(edges.take(i + 1).last() == edges[i as int]);
                lemma_stretch_bounds(edges.take(i as int), orig, pose, epsilon);
                lemma_stretch_bounds(edges.take(i + 1), orig, pose, epsilon);
                lemma_sq_dist_bounds(orig[edge.0 as int], orig[edge.1 as int]);
                lemma_sq_dist_bounds(pose[edge.0 as int], pose[edge.1 as int]);
            }
            let d_before = distance(&self.figure.vertices[edge.0], &self.figure.vertices[edge.1]);
            let d_after = distance(&pose_vertices[edge.0], &pose_vertices[edge.1]);
            let (ratio, over) = edge_stretch(d_before, d_after, self.epsilon);
            sum = if ratio > u128::MAX - sum {
                u128::MAX
            } else {
                sum + ratio
            };
            if over {
                stretched = stretched + 1;
            }
            i = i + 1;
        }
        proof {
            assert(edges.take(edges.len() as int) =~= edges);
            lemma_stretch_bounds(edges, orig, pose, epsilon);
        }
        match bonus {
            Some(PoseBonus::Globalist { .. }) => {
                if self.pool_spent(pose_vertices) {
                    Err(PoseValidationError::BrokenEdgesFound { ratio_sum: sum, broken_edges_count: 0 })
                } else {
                    Ok(sum)
                }
            },
            _ => {
                let forgiven: usize = match bonus {
                    Some(PoseBonus::Superflex { .. }) => 1,
                    _ => 0,
                };
                if stretched > forgiven {
                    Err(
                        PoseValidationError::BrokenEdgesFound {
                            ratio_sum: sum,
                            broken_edges_count: stretched - forgiven,
                        },
                    )
                } else {
                    Ok(sum)
                }
            },
        }
    }
}

/// What the containment check remembers while it walks the edges: the one
/// vertex that `Wallhack` lets lie outside the hole, once it is known, and
/// the number of edges that were found to leave the hole.
pub struct HoleScan {
    pub outer_vertex: Option<usize>,
    pub edges_out: int,
}

/// The containment check after the last edge of `edges`.
///
/// An edge that the oracle accepts changes nothing. One that it rejects is
/// counted, unless `wallhack` excuses it: an edge from an inside vertex to an
/// outside one names the outside vertex as the exempt one if none is named
/// yet, and after that exactly the edges that touch the exempt vertex are
/// excused.
pub open spec fn hole_scan<E: InvalidEdge>(
    oracle: &E,
    edges: Seq<Edge>,
    pose: Seq<Point>,
    wallhack: bool,
) -> HoleScan
    decreases edges.len(),
{
    if edges.len() == 0 {
        HoleScan { outer_vertex: None, edges_out: 0 }
    } else {
        let before = hole_scan(oracle, edges.drop_last(), pose, wallhack);
        let edge = edges.last();
        let start = pose[edge.0 as int];
        let end = pose[edge.1 as int];
        let counted = HoleScan { outer_vertex: before.outer_vertex, edges_out: before.edges_out + 1 };
        if !oracle.edge_invalid(start, end) {
            before
        } else if !wallhack {
            counted
        } else {
            match before.outer_vertex {
                None => {
                    let start_out = oracle.edge_invalid(start, start);
                    let end_out = oracle.edge_invalid(end, end);
                    if start_out && !end_out {
                        HoleScan { outer_vertex: Some(edge.0), edges_out: before.edges_out }
                    } else if !start_out && end_out {
                        HoleScan { outer_vertex: Some(edge.1), edges_out: before.edges_out }
                    } else {
                        counted
                    }
                },
                Some(idx) => {
                    if idx == edge.0 || idx == edge.1 {
                        before
                    } else {
                        counted
                    }
                },
            }
        }
    }
}

/// The outcome of the containment check.
pub open spec fn hole_verdict<E: InvalidEdge>(
    oracle: &E,
    edges: Seq<Edge>,
    pose: Seq<Point>,
    bonus: Option<PoseBonus>,
) -> Result<(), PoseValidationError> {
    let scan = hole_scan(oracle, edges, pose, bonus matches Some(PoseBonus::Wallhack { .. }));
    if scan.edges_out > 0 {
        Err(PoseValidationError::EdgesNotFitHole(scan.edges_out as usize))
    } else {
        Ok(())
    }
}

/// No more edges are counted than there are.
pub proof fn lemma_hole_scan_bounds<E: InvalidEdge>(
    oracle: &E,
    edges: Seq<Edge>,
    pose: Seq<Point>,
    wallhack: bool,
)
    ensures
        0 <= hole_scan(oracle, edges, pose, wallhack).edges_out <= edges.len(),
    decreases edges.len(),
{
    if edges.len() > 0 {
        lemma_hole_scan_bounds(oracle, edges.drop_last(), pose, wallhack);
    }
}

/// The least squared distance from `target` to a point of `pose`, which is
/// not empty.
pub open spec fn min_sq_dist(target: Point, pose: Seq<Point>) -> int
    decreases pose.len(),
{
    if pose.len() <= 1 {
        sq_dist(target, pose[0])
    } else {
        let rest = min_sq_dist(target, pose.drop_last());
        let last = sq_dist(target, pose.last());
        if last < rest {
            last
        } else {
            rest
        }
    }
}

/// The dislikes of a pose: for each vertex of the hole the squared distance
/// to the nearest vertex of the pose, summed.
pub open spec fn dislikes(hole: Seq<Point>, pose: Seq<Point>) -> int
    decreases hole.len(),
{
    if hole.len() == 0 {
        0
    } else {
        dislikes(hole.drop_last(), pose) + min_sq_dist(hole.last(), pose)
    }
}

/// `min_sq_dist` is the distance to some point of the pose, and no point of
/// the pose is nearer.
pub proof fn lemma_min_sq_dist_is_least(target: Point, pose: Seq<Point>)
    requires
        pose.len() > 0,
    ensures
        exists|j: int| 0 <= j < pose.len() && min_sq_dist(target, pose) == sq_dist(target, pose[j]),
        forall|j: int| 0 <= j < pose.len() ==> min_sq_dist(target, pose) <= sq_dist(target, pose[j]),
        0 <= min_sq_dist(target, pose),
    decreases pose.len(),
{
    if pose.len() <= 1 {
        lemma_sq_dist_bounds(target, pose[0]);
        assert(min_sq_dist(target, pose) == sq_dist(target, pose[0]));
    } else {
        let rest = pose.drop_last();
        lemma_min_sq_dist_is_least(target, rest);
        lemma_sq_dist_bounds(target, pose.last());
        let w = choose|j: int| 0 <= j < rest.len() && min_sq_dist(target, rest) == sq_dist(target, rest[j]);
        if sq_dist(target, pose.last()) < min_sq_dist(target, rest) {
            assert(min_sq_dist(target, pose) == sq_dist(target, pose[pose.len() - 1]));
        } else {
            assert(rest[w] == pose[w]);
            assert(min_sq_dist(target, pose) == sq_dist(target, pose[w]));
        }
        assert forall|j: int| 0 <= j < pose.len() implies min_sq_dist(target, pose) <= sq_dist(
            target,
            pose[j],
        ) by {
            if j < rest.len() {
                assert(rest[j] == pose[j]);
            }
        }
    }
}

/// The dislikes are never negative.
pub proof fn lemma_dislikes_nonnegative(hole: Seq<Point>, pose: Seq<Point>)
    requires
        pose.len() > 0,
    ensures
        0 <= dislikes(hole, pose),
    decreases hole.len(),
{
    if hole.len() > 0 {
        lemma_dislikes_nonnegative(hole.drop_last(), pose);
        lemma_min_sq_dist_is_least(hole.last(), pose);
    }
}

/// Every distance between a vertex of the hole and one of the pose fits 64
/// bits, and so does their sum of least distances; a hole that has vertices
/// needs a pose that has some.
pub open spec fn dislikes_fit(hole: Seq<Point>, pose: Seq<Point>) -> bool {
    &&& hole.len() > 0 ==> pose.len() > 0
    &&& forall|i: int, j: int|
        0 <= i < hole.len() && 0 <= j < pose.len() ==> sq_dist(#[trigger] hole[i], #[trigger] pose[j])
            <= i64::MAX
    &&& dislikes(hole, pose) <= i64::MAX
}

/// The least squared distance from `target` to a vertex of `pose`.
fn nearest(target: &Point, pose: &[Point]) -> (d: i64)
    requires
        pose@.len() > 0,
        forall|j: int| 0 <= j < pose@.len() ==> sq_dist(*target, #[trigger] pose@[j]) <= i64::MAX,
    ensures
        d == min_sq_dist(*target, pose@),
{
    let mut best = distance(target, &pose[0]);
    let mut j: usize = 1;
    proof {
        assert(pose@.take(1).len() == 1);
        assert(pose@.take(1)[0] == pose@[0]);
    }
    while j < pose.len()
        invariant
            1 <= j <= pose@.len(),
            forall|k: int| 0 <= k < pose@.len() ==> sq_dist(*target, #[trigger] pose@[k]) <= i64::MAX,
            best == min_sq_dist(*target, pose@.take(j as int)),
        decreases pose@.len() - j,
    {
        proof {
            assert(pose@.take(j + 1).drop_last() =~= pose@.take(j as int));
            assert(pose@.take(j + 1).last() == pose@[j as int]);
        }
        let d = distance(target, &pose[j]);
        if d < best {
            best = d;
        }
        j = j + 1;
    }
    proof {
        assert(pose@.take(pose@.len() as int) =~= pose@);
    }
    best
}

/// The outcome of scoring a pose: the first check that fails names the
/// error; where none fails the score is the dislikes.
pub open spec fn score_verdict<E: InvalidEdge>(
    problem: &Problem,
    oracle: &E,
    pose: Seq<Point>,
    bonus: Option<PoseBonus>,
) -> Result<i64, PoseValidationError> {
    let edges = problem.figure.edges@;
    let stretch = stretch_verdict(edges, problem.figure.vertices@, pose, problem.epsilon as int, bonus);
    let hole = hole_verdict(oracle, edges, pose, bonus);
    if pose.len() != problem.figure.vertices@.len() {
        Err(PoseValidationError::VerticeCountMismatch)
    } else if stretch is Err {
        Err(stretch->Err_0)
    } else if hole is Err {
        Err(hole->Err_0)
    } else {
        Ok(dislikes(problem.hole@, pose) as i64)
    }
}

/// The bonus that a list of bonuses puts to use: its first entry.
pub open spec fn first_bonus(bonuses: Option<Vec<PoseBonus>>) -> Option<PoseBonus> {
    match bonuses {
        Some(list) => if list@.len() > 0 {
            Some(list@[0])
        } else {
            None
        },
        None => None,
    }
}

/// The table of squared edge lengths: at row `a`, column `b` the squared
/// length of the last edge of `edges` that joins `a` and `b`, in either
/// direction, and -1 where no edge joins them.
pub open spec fn distance_table(edges: Seq<Edge>, vertices: Seq<Point>) -> Seq<i64>
    decreases edges.len(),
{
    if edges.len() == 0 {
        Seq::new(vertices.len() * vertices.len(), |k: int| -1i64)
    } else {
        let edge = edges.last();
        let length = edge_len(edge, vertices) as i64;
        distance_table(edges.drop_last(), vertices).update(
            edge.0 * vertices.len() + edge.1,
            length,
        ).update(edge.1 * vertices.len() + edge.0, length)
    }
}

/// The table has a cell for each pair of vertices.
pub proof fn lemma_distance_table_len(edges: Seq<Edge>, vertices: Seq<Point>)
    requires
        edges_in_range(edges, vertices.len() as int),
    ensures
        distance_table(edges, vertices).len() == vertices.len() * vertices.len(),
    decreases edges.len(),
{
    if edges.len() > 0 {
        let rest = edges.drop_last();
        assert forall|i: int| 0 <= i < rest.len() implies (#[trigger] rest[i]).0 < vertices.len()
            && rest[i].1 < vertices.len() by {
            assert(rest[i] == edges[i]);
        }
        lemma_distance_table_len(rest, vertices);
        let edge = edges.last();
        lemma_cell_in_table(edge.0 as int, edge.1 as int, vertices.len() as int);
        lemma_cell_in_table(edge.1 as int, edge.0 as int, vertices.len() as int);
    }
}

/// A cell index made of two vertex indices lies inside the table.
pub proof fn lemma_cell_in_table(a: int, b: int, n: int)
    requires
        0 <= a < n,
        0 <= b < n,
    ensures
        0 <= a * n + b < n * n,
        a * n >= 0,
{
    assert(a * n >= 0 && a * n + n <= n * n) by (nonlinear_arith)
        requires
            0 <= a < n,
    ;
}

impl Problem {
    /// Every check of `score_vertices` can be computed on `pose` within 64
    /// bits.
    pub open spec fn scorable(&self, pose: Seq<Point>) -> bool {
        &&& self.wf()
        &&& pose.len() == self.figure.vertices@.len() ==> self.measurable(pose) && dislikes_fit(
            self.hole@,
            pose,
        )
    }

    /// The pose that leaves the figure where the problem states it.
    pub fn export_pose(&self) -> (pose: Pose)
        ensures
            pose.vertices@ == self.figure.vertices@,
            pose.bonuses is None,
    {
        let vertices = self.figure.vertices.clone();
        assert(vertices@ =~= self.figure.vertices@);
        Pose { vertices, bonuses: None }
    }

    /// Checks that every edge of the posed figure stays inside the hole.
    pub fn score_vertices_check_hole<E: InvalidEdge>(
        &self,
        geo_hole: &E,
        pose_vertices: &[Point],
        bonus: Option<PoseBonus>,
    ) -> (r: Result<(), PoseValidationError>)
        requires
            edges_in_range(self.figure.edges@, pose_vertices@.len() as int),
        ensures
            r == hole_verdict(geo_hole, self.figure.edges@, pose_vertices@, bonus),
    {
        let ghost edges = self.figure.edges@;
        let ghost pose = pose_vertices@;
        let wallhack = match bonus {
            Some(PoseBonus::Wallhack { .. }) => true,
            _ => false,
        };
        let mut edges_out_of_hole_count: usize = 0;
        let mut outer_vertex: Option<usize> = None;
        let mut i: usize = 0;
        while i < self.figure.edges.len()
            invariant
                0 <= i <= edges.len(),
                edges == self.figure.edges@,
                pose == pose_vertices@,
                edges_in_range(edges, pose.len() as int),
                wallhack == (bonus matches Some(PoseBonus::Wallhack { .. })),
                outer_vertex == hole_scan(geo_hole, edges.take(i as int), pose, wallhack).outer_vertex,
                edges_out_of_hole_count == hole_scan(
                    geo_hole,
                    edges.take(i as int),
                    pose,
                    wallhack,
                ).edges_out,
            decreases edges.len() - i,
        {
            let edge = self.figure.edges[i];
            proof {
                assert(edges.take(i + 1).drop_last() =~= edges.take(i as int));
                assert(edges.take(i + 1).last() == edges[i as int]);
                lemma_hole_scan_bounds(geo_hole, edges.take(i as int), pose, wallhack);
            }
            let v_start = pose_vertices[edge.0];
            let v_end = pose_vertices[edge.1];
            i = i + 1;
            if geo_hole.is_edge_invalid(v_start, v_end) {
                if wallhack {
                    match outer_vertex {
                        None => {
                            let contains_start = !geo_hole.is_edge_invalid(v_start, v_start);
                            let contains_end = !geo_hole.is_edge_invalid(v_end, v_end);
                            if !contains_start && contains_end {
                                outer_vertex = Some(edge.0);
                                continue ;
                            } else if contains_start && !contains_end {
                                outer_vertex = Some(edge.1);
                                continue ;
                            }
                        },
                        Some(idx) => {
                            if idx == edge.0 || idx == edge.1 {
                                continue ;
                            }
                        },
                    }
                }
                edges_out_of_hole_count = edges_out_of_hole_count + 1;
            }
        }
        proof {
            assert(edges.take(edges.len() as int) =~= edges);
        }
        if edges_out_of_hole_count > 0 {
            return Err(PoseValidationError::EdgesNotFitHole(edges_out_of_hole_count));
        }
        Ok(())
    }

    /// Scores a placement of the figure's vertices: checks their number, the
    /// stretch of the edges and the containment in the hole, in this order,
    /// and returns the dislikes where all three pass.
    pub fn score_vertices<E: InvalidEdge>(
        &self,
        geo_hole: &E,
        pose_vertices: &[Point],
        bonus: Option<PoseBonus>,
    ) -> (r: Result<i64, PoseValidationError>)
        requires
            bonus_supported(bonus),
            self.scorable(pose_vertices@),
        ensures
            r == score_verdict(self, geo_hole, pose_vertices@, bonus),
    {
        match self.score_vertices_check_count(pose_vertices, bonus) {
            Err(error) => {
                return Err(error);
            },
            Ok(_) => {},
        }
        match self.score_vertices_check_stretching(pose_vertices, bonus) {
            Err(error) => {
                return Err(error);
            },
            Ok(_) => {},
        }
        match self.score_vertices_check_hole(geo_hole, pose_vertices, bonus) {
            Err(error) => {
                return Err(error);
            },
            Ok(_) => {},
        }
        let ghost hole = self.hole@;
        let ghost pose = pose_vertices@;
        let mut total: i64 = 0;
        let mut i: usize = 0;
        proof {
            if hole.len() == 0 {
                assert(hole.take(0) =~= hole);
            } else {
                lemma_dislikes_nonnegative(hole, pose);
            }
        }
        while i < self.hole.len()
            invariant
                0 <= i <= hole.len(),
                hole == self.hole@,
                pose == pose_vertices@,
                dislikes_fit(hole, pose),
                total == dislikes(hole.take(i as int), pose),
                dislikes(hole.take(i as int), pose) <= dislikes(hole, pose),
            decreases hole.len() - i,
        {
            proof {
                assert(hole.take(i + 1).drop_last() =~= hole.take(i as int));
                assert(hole.take(i + 1).last() == hole[i as int]);
                lemma_dislikes_prefix(hole, pose, i + 1);
                lemma_dislikes_nonnegative(hole.take(i as int), pose);
            }
            let least = nearest(&self.hole[i], pose_vertices);
            total = total + least;
            i = i + 1;
        }
        proof {
            assert(hole.take(hole.len() as int) =~= hole);
        }
        Ok(total)
    }

    /// Scores a pose under the first of the bonuses that it lists.
    pub fn score_pose<E: InvalidEdge>(&self, geo_hole: &E, pose: &Pose) -> (r: Result<
        i64,
        PoseValidationError,
    >)
        requires
            bonus_supported(first_bonus(pose.bonuses)),
            self.scorable(pose.vertices@),
        ensures
            r == score_verdict(self, geo_hole, pose.vertices@, first_bonus(pose.bonuses)),
    {
        let bonus = match &pose.bonuses {
            Some(list) => if list.len() > 0 {
                Some(list[0])
            } else {
                None
            },
            None => None,
        };
        self.score_vertices(geo_hole, pose.vertices.as_slice(), bonus)
    }

    /// Scores a pose and moves the figure's vertices to where it places
    /// them, whatever the score.
    pub fn import_pose<E: InvalidEdge>(&mut self, geo_hole: &E, pose: Pose) -> (r: Result<
        i64,
        PoseValidationError,
    >)
        requires
            bonus_supported(first_bonus(pose.bonuses)),
            old(self).scorable(pose.vertices@),
        ensures
            r == score_verdict(old(self), geo_hole, pose.vertices@, first_bonus(pose.bonuses)),
            final(self).figure.vertices@ == pose.vertices@,
            final(self).figure.edges == old(self).figure.edges,
            final(self).hole == old(self).hole,
            final(self).epsilon == old(self).epsilon,
            final(self).bonuses == old(self).bonuses,
    {
        let score = self.score_pose(geo_hole, &pose);
        self.figure.vertices = pose.vertices;
        score
    }

    /// The table of the squared lengths of the figure's edges, one row and
    /// one column for each vertex.
    pub fn distance_cache(&self) -> (distances: Vec<i64>)
        requires
            self.wf(),
            self.figure.vertices@.len() * self.figure.vertices@.len() <= usize::MAX,
        ensures
            distances@ == distance_table(self.figure.edges@, self.figure.vertices@),
    {
        let ghost edges = self.figure.edges@;
        let ghost vertices = self.figure.vertices@;
        let n = self.figure.vertices.len();
        let mut distances: Vec<i64> = Vec::new();
        let mut k: usize = 0;
        while k < n * n
            invariant
                n == vertices.len(),
                n * n <= usize::MAX,
                0 <= k <= n * n,
                distances@ == Seq::new(k as nat, |c: int| -1i64),
            decreases n * n - k,
        {
            distances.push(-1);
            assert(distances@ =~= Seq::new((k + 1) as nat, |c: int| -1i64));
            k = k + 1;
        }
        assert(edges.take(0) =~= Seq::<Edge>::empty());
        let mut i: usize = 0;
        while i < self.figure.edges.len()
            invariant
                0 <= i <= edges.len(),
                edges == self.figure.edges@,
                vertices == self.figure.vertices@,
                n == vertices.len(),
                n * n <= usize::MAX,
                self.wf(),
                distances@ == distance_table(edges.take(i as int), vertices),
            decreases edges.len() - i,
        {
            let edge = self.figure.edges[i];
            proof {
                assert(edges.take(i + 1).drop_last() =~= edges.take(i as int));
                assert(edges.take(i + 1).last() == edges[i as int]);
                assert forall|j: int| 0 <= j < edges.take(i as int).len() implies (
                #[trigger] edges.take(i as int)[j]).0 < vertices.len() && edges.take(i as int)[j].1
                    < vertices.len() by {
                    assert(edges.take(i as int)[j] == edges[j]);
                }
                lemma_distance_table_len(edges.take(i as int), vertices);
                lemma_cell_in_table(edge.0 as int, edge.1 as int, n as int);
                lemma_cell_in_table(edge.1 as int, edge.0 as int, n as int);
                lemma_sq_dist_bounds(vertices[edge.0 as int], vertices[edge.1 as int]);
            }
            let length = distance(&self.figure.vertices[edge.0], &self.figure.vertices[edge.1]);
            distances.set(edge.0 * n + edge.1, length);
            distances.set(edge.1 * n + edge.0, length);
            i = i + 1;
        }
        proof {
            assert(edges.take(edges.len() as int) =~= edges);
        }
        distances
    }
}

/// The dislikes of a prefix of the hole do not exceed those of the whole.
pub proof fn lemma_dislikes_prefix(hole: Seq<Point>, pose: Seq<Point>, n: int)
    requires
        0 <= n <= hole.len(),
        pose.len() > 0,
    ensures
        dislikes(hole.take(n), pose) <= dislikes(hole, pose),
    decreases hole.len() - n,
{
    if n == hole.len() {
        assert(hole.take(n) =~= hole);
    } else {
        lemma_dislikes_prefix(hole, pose, n + 1);
        assert(hole.take(n + 1).drop_last() =~= hole.take(n));
        lemma_min_sq_dist_is_least(hole.take(n + 1).last(), pose);
    }
}

impl Pose {
    /// The bonus that the pose puts to use: the first that it lists.
    pub fn bonus(&self) -> (bonus: Option<PoseBonus>)
        requires
            self.bonuses matches Some(list) ==> list@.len() > 0,
        ensures
            bonus == first_bonus(self.bonuses),
    {
        match &self.bonuses {
            Some(list) => Some(list[0]),
            None => None,
        }
    }
}

/// An axis-parallel box, given by two opposite corners in any order.
#[derive(Clone, Copy, PartialEq, Eq, Hash, Debug, Structural)]
pub struct BoundingBox(pub Point, pub Point);

/// The lattice points between two boxes: inside or on the outer one, and
/// not strictly inside the inner one.
#[derive(Clone, Copy, PartialEq, Eq, Hash, Debug, Structural)]
pub struct SquareRing(pub BoundingBox, pub BoundingBox);

/// The smaller of two numbers.
pub open spec fn lesser(a: int, b: int) -> int {
    if a <= b {
        a
    } else {
        b
    }
}

/// The larger of two numbers.
pub open spec fn greater(a: int, b: int) -> int {
    if a >= b {
        a
    } else {
        b
    }
}

impl BoundingBox {
    /// The point lies in the box or on its border, and has no negative
    /// coordinate.
    pub open spec fn covers(&self, p: Point) -> bool {
        &&& greater(0, lesser(self.0.0 as int, self.1.0 as int)) <= p.0 <= greater(
            self.0.0 as int,
            self.1.0 as int,
        )
        &&& greater(0, lesser(self.0.1 as int, self.1.1 as int)) <= p.1 <= greater(
            self.0.1 as int,
            self.1.1 as int,
        )
    }

    /// The point lies in the box and not on its border.
    pub open spec fn encloses(&self, p: Point) -> bool {
        &&& lesser(self.0.0 as int, self.1.0 as int) < p.0 < greater(self.0.0 as int, self.1.0 as int)
        &&& lesser(self.0.1 as int, self.1.1 as int) < p.1 < greater(self.0.1 as int, self.1.1 as int)
    }
}

/// The points stand in their order, each before the next.
pub open spec fn ascending(points: Seq<Point>) -> bool {
    forall|i: int, j: int|
        0 <= i < j < points.len() ==> earlier(#[trigger] points[i], #[trigger] points[j])
}

/// What a sequence holds after one more item was pushed.
pub proof fn lemma_push_contains<T>(s: Seq<T>, v: T)
    ensures
        forall|x: T| s.push(v).contains(x) <==> (s.contains(x) || x == v),
        s.no_duplicates() && !s.contains(v) ==> s.push(v).no_duplicates(),
{
    assert forall|x: T| s.push(v).contains(x) <==> (s.contains(x) || x == v) by {
        if s.contains(x) {
            let i = choose|i: int| 0 <= i < s.len() && s[i] == x;
            assert(s.push(v)[i] == x);
        }
        if x == v {
            assert(s.push(v)[s.len() as int] == x);
        }
        if s.push(v).contains(x) {
            let i = choose|i: int| 0 <= i < s.push(v).len() && s.push(v)[i] == x;
            if i < s.len() {
                assert(s[i] == x);
            }
        }
    }
    if s.no_duplicates() && !s.contains(v) {
        assert forall|i: int, j: int|
            0 <= i < s.push(v).len() && 0 <= j < s.push(v).len() && i != j implies s.push(v)[i]
            != s.push(v)[j] by {
            if i < s.len() && j < s.len() {
                assert(s[i] != s[j]);
            } else if i < s.len() {
                assert(s.contains(s[i]));
            } else {
                assert(s.contains(s[j]));
            }
        }
    }
}

impl BoundingBox {
    /// The points of the box that have no negative coordinate, each once,
    /// in the order of the points.
    pub fn point_set(&self) -> (points: Vec<Point>)
        ensures
            forall|p: Point| #[trigger] points@.contains(p) <==> self.covers(p),
            ascending(points@),
            points@.no_duplicates(),
    {
        let nothing = BoundingBox(self.0, self.0);
        assert(forall|p: Point| !nothing.encloses(p));
        SquareRing(*self, nothing).point_set()
    }
}

impl SquareRing {
    /// The point belongs to the ring.
    pub open spec fn holds(&self, p: Point) -> bool {
        self.0.covers(p) && !self.1.encloses(p)
    }

    /// The point belongs to the ring and, where a hole is given, lies in the
    /// hole or on its border.
    pub open spec fn picks(&self, hole: Option<&[Point]>, p: Point) -> bool {
        self.holds(p) && (hole matches Some(ring) ==> hole_holds(ring@, p))
    }

    /// The points of the ring, each once, in the order of the points.
    pub fn point_set(&self) -> (points: Vec<Point>)
        ensures
            forall|p: Point| #[trigger] points@.contains(p) <==> self.holds(p),
            ascending(points@),
            points@.no_duplicates(),
    {
        self.pick_points(None)
    }

    /// The points of the ring that lie in the hole or on its border, each
    /// once, in the order of the points.
    pub fn point_set_within_hole(&self, hole: &Vec<Point>) -> (points: Vec<Point>)
        requires
            all_in_reach(hole@),
            in_reach(self.0.0),
            in_reach(self.0.1),
        ensures
            forall|p: Point| #[trigger] points@.contains(p) <==> self.holds(p) && hole_holds(hole@, p),
            ascending(points@),
            points@.no_duplicates(),
    {
        self.pick_points(Some(hole.as_slice()))
    }

    /// Walks the outer box column by column and keeps the points that the
    /// ring picks.
    #[verifier::loop_isolation(false)]
    fn pick_points(&self, hole: Option<&[Point]>) -> (points: Vec<Point>)
        requires
            hole matches Some(ring) ==> all_in_reach(ring@) && in_reach(self.0.0) && in_reach(
                self.0.1,
            ),
        ensures
            forall|p: Point| #[trigger] points@.contains(p) <==> self.picks(hole, p),
            ascending(points@),
            points@.no_duplicates(),
    {
        let outer = self.0;
        let inner = self.1;
        let low_x: i64 = floor_at_zero(smaller(outer.0.0, outer.1.0));
        let high_x: i64 = larger(outer.0.0, outer.1.0);
        let low_y: i64 = floor_at_zero(smaller(outer.0.1, outer.1.1));
        let high_y: i64 = larger(outer.0.1, outer.1.1);
        let in_low_x: i64 = smaller(inner.0.0, inner.1.0);
        let in_high_x: i64 = larger(inner.0.0, inner.1.0);
        let in_low_y: i64 = smaller(inner.0.1, inner.1.1);
        let in_high_y: i64 = larger(inner.0.1, inner.1.1);
        let mut points: Vec<Point> = Vec::new();
        let mut x: i128 = low_x as i128;
        while x <= high_x as i128
            invariant
                low_x <= x,
                x <= high_x + 1 || x == low_x,
                forall|p: Point| #[trigger] points@.contains(p) <==> self.picks(hole, p) && p.0 < x,
                ascending(points@),
                points@.no_duplicates(),
            decreases high_x + 1 - x,
        {
            let mut y: i128 = low_y as i128;
            while y <= high_y as i128
                invariant
                    low_x <= x <= high_x,
                    low_y <= y,
                    y <= high_y + 1 || y == low_y,
                    forall|p: Point|
                        #[trigger] points@.contains(p) <==> self.picks(hole, p) && (p.0 < x || (p.0
                            == x && p.1 < y)),
                    ascending(points@),
                    points@.no_duplicates(),
                decreases high_y + 1 - y,
            {
                let enclosed = x > in_low_x as i128 && x < in_high_x as i128 && y > in_low_y as i128
                    && y < in_high_y as i128;
                let point = Point(x as i64, y as i64);
                let picked = !enclosed && match hole {
                    Some(ring) => hole_contains(ring, point),
                    None => true,
                };
                let ghost before = points@;
                if picked {
                    proof {
                        assert(!points@.contains(point));
                        lemma_push_contains(points@, point);
                        assert forall|i: int, j: int|
                            0 <= i < j < points@.push(point).len() implies earlier(
                            #[trigger] points@.push(point)[i],
                            #[trigger] points@.push(point)[j],
                        ) by {
                            if j == points@.len() {
                                assert(points@.contains(points@[i]));
                            }
                        }
                    }
                    points.push(point);
                }
                proof {
                    assert(picked == self.picks(hole, point)) by {
                        if enclosed {
                            assert(self.1.encloses(point));
                        } else {
                            assert(self.holds(point));
                        }
                    }
                    assert forall|p: Point| #[trigger]
                        points@.contains(p) <==> self.picks(hole, p) && (p.0 < x || (p.0 == x && p.1
                            < y + 1)) by {
                        assert(before.contains(p) <==> self.picks(hole, p) && (p.0 < x || (p.0 == x
                            && p.1 < y)));
                        if p.0 == x && p.1 == y {
                            assert(p == point);
                        }
                        if picked {
                            assert(points@ == before.push(point));
                            assert(before.push(point).contains(p) <==> (before.contains(p) || p
                                == point));
                        }
                    }
                }
                y = y + 1;
            }
            x = x + 1;
        }
        points
    }
}

/// The smaller of two coordinates.
fn smaller(a: i64, b: i64) -> (m: i64)
    ensures
        m == lesser(a as int, b as int),
{
    if a <= b {
        a
    } else {
        b
    }
}

/// The larger of two coordinates.
fn larger(a: i64, b: i64) -> (m: i64)
    ensures
        m == greater(a as int, b as int),
{
    if a >= b {
        a
    } else {
        b
    }
}

/// A coordinate, or zero where it is negative.
fn floor_at_zero(a: i64) -> (m: i64)
    ensures
        m == greater(0, a as int),
{
    if a >= 0 {
        a
    } else {
        0
    }
}

/// Measured against itself, no edge is stretched, whatever the tolerance.
pub proof fn lemma_unmoved_edges_unstretched(edges: Seq<Edge>, vertices: Seq<Point>, epsilon: int)
    requires
        epsilon >= 0,
    ensures
        stretched_count(edges, vertices, vertices, epsilon) == 0,
    decreases edges.len(),
{
    if edges.len() > 0 {
        lemma_unmoved_edges_unstretched(edges.drop_last(), vertices, epsilon);
        let length = edge_len(edges.last(), vertices);
        lemma_sq_dist_bounds(vertices[edges.last().0 as int], vertices[edges.last().1 as int]);
        assert(epsilon * length >= 0) by (nonlinear_arith)
            requires
                epsilon >= 0,
                length >= 0,
        ;
    }
}

/// Where the oracle accepts every edge, the containment check counts none.
pub proof fn lemma_accepted_edges_fit<E: InvalidEdge>(
    oracle: &E,
    edges: Seq<Edge>,
    pose: Seq<Point>,
    wallhack: bool,
)
    requires
        forall|i: int|
            0 <= i < edges.len() ==> !oracle.edge_invalid(
                pose[(#[trigger] edges[i]).0 as int],
                pose[edges[i].1 as int],
            ),
    ensures
        hole_scan(oracle, edges, pose, wallhack).edges_out == 0,
        hole_scan(oracle, edges, pose, wallhack).outer_vertex is None,
    decreases edges.len(),
{
    if edges.len() > 0 {
        let rest = edges.drop_last();
        assert forall|i: int| 0 <= i < rest.len() implies !oracle.edge_invalid(
            pose[(#[trigger] rest[i]).0 as int],
            pose[rest[i].1 as int],
        ) by {
            assert(rest[i] == edges[i]);
        }
        lemma_accepted_edges_fit(oracle, rest, pose, wallhack);
        assert(edges.last() == edges[edges.len() - 1]);
    }
}

/// Two oracles say the same of every edge of the posed figure, and of each
/// end of an edge taken as a segment without length.
pub open spec fn agree_on_pose<E: InvalidEdge, F: InvalidEdge>(
    first: &E,
    second: &F,
    edges: Seq<Edge>,
    pose: Seq<Point>,
) -> bool {
    forall|i: int|
        0 <= i < edges.len() ==> {
            let start = pose[(#[trigger] edges[i]).0 as int];
            let end = pose[edges[i].1 as int];
            &&& first.edge_invalid(start, end) == second.edge_invalid(start, end)
            &&& first.edge_invalid(start, start) == second.edge_invalid(start, start)
            &&& first.edge_invalid(end, end) == second.edge_invalid(end, end)
        }
}

/// The containment check goes the same way with two oracles that agree on
/// the posed figure.
pub proof fn lemma_agreeing_oracles_scan_alike<E: InvalidEdge, F: InvalidEdge>(
    first: &E,
    second: &F,
    edges: Seq<Edge>,
    pose: Seq<Point>,
    wallhack: bool,
)
    requires
        agree_on_pose(first, second, edges, pose),
    ensures
        hole_scan(first, edges, pose, wallhack) == hole_scan(second, edges, pose, wallhack),
    decreases edges.len(),
{
    if edges.len() > 0 {
        let rest = edges.drop_last();
        assert forall|i: int| 0 <= i < rest.len() implies {
            let start = pose[(#[trigger] rest[i]).0 as int];
            let end = pose[rest[i].1 as int];
            &&& first.edge_invalid(start, end) == second.edge_invalid(start, end)
            &&& first.edge_invalid(start, start) == second.edge_invalid(start, start)
            &&& first.edge_invalid(end, end) == second.edge_invalid(end, end)
        } by {
            assert(rest[i] == edges[i]);
        }
        lemma_agreeing_oracles_scan_alike(first, second, rest, pose, wallhack);
        assert(edges.last() == edges[edges.len() - 1]);
    }
}

/// A pose scores the same with two oracles that agree on it.
pub proof fn lemma_agreeing_oracles_score_alike<E: InvalidEdge, F: InvalidEdge>(
    problem: &Problem,
    first: &E,
    second: &F,
    pose: Seq<Point>,
    bonus: Option<PoseBonus>,
)
    requires
        agree_on_pose(first, second, problem.figure.edges@, pose),
    ensures
        score_verdict(problem, first, pose, bonus) == score_verdict(problem, second, pose, bonus),
{
    lemma_agreeing_oracles_scan_alike(
        first,
        second,
        problem.figure.edges@,
        pose,
        bonus matches Some(PoseBonus::Wallhack { .. }),
    );
}

/// A figure that is left where the problem states it, and whose edges the
/// oracle accepts there, scores its dislikes: no check fails.
pub proof fn lemma_unmoved_figure_scores<E: InvalidEdge>(problem: &Problem, oracle: &E)
    requires
        forall|i: int|
            0 <= i < problem.figure.edges@.len() ==> !oracle.edge_invalid(
                problem.figure.vertices@[(#[trigger] problem.figure.edges@[i]).0 as int],
                problem.figure.vertices@[problem.figure.edges@[i].1 as int],
            ),
    ensures
        score_verdict(problem, oracle, problem.figure.vertices@, None) == Ok::<
            i64,
            PoseValidationError,
        >(dislikes(problem.hole@, problem.figure.vertices@) as i64),
{
    let edges = problem.figure.edges@;
    let vertices = problem.figure.vertices@;
    lemma_unmoved_edges_unstretched(edges, vertices, problem.epsilon as int);
    lemma_accepted_edges_fit(oracle, edges, vertices, false);
}

/// Why a figure could not be handed out for turning.
#[derive(Clone, Copy, PartialEq, Eq, Debug, Structural)]
pub enum GeoExportError {
    /// A figure without vertices has no centre to turn it about.
    NoCentroidBuilt,
}

/// Why turned points could not be taken for a figure's vertices.
#[derive(Clone, Copy, PartialEq, Eq, Debug, Structural)]
pub enum GeoImportError {
    PointsCountMismatch { expected: usize, provided: usize },
    PointsInEdgeMismatch { expected: usize, provided: usize },
}

impl Figure {
    /// The vertices of the figure, for turning them about their centre:
    /// there must be one at least.
    pub fn export_to_geo(&self) -> (r: Result<Vec<Point>, GeoExportError>)
        ensures
            self.vertices@.len() == 0 <==> r == Err::<Vec<Point>, GeoExportError>(
                GeoExportError::NoCentroidBuilt,
            ),
            r matches Ok(points) ==> points@ == self.vertices@,
    {
        if self.vertices.len() == 0 {
            return Err(GeoExportError::NoCentroidBuilt);
        }
        let points = self.vertices.clone();
        assert(points@ =~= self.vertices@);
        Ok(points)
    }

    /// Moves the vertices of the figure to the given points, of which there
    /// must be one for each vertex; else the figure stays as it is.
    pub fn import_from_geo(&mut self, geo_figure: Vec<Point>) -> (r: Result<(), GeoImportError>)
        ensures
            final(self).edges == old(self).edges,
            geo_figure@.len() == old(self).vertices@.len() ==> r == Ok::<(), GeoImportError>(())
                && final(self).vertices@ == geo_figure@,
            geo_figure@.len() != old(self).vertices@.len() ==> r == Err::<(), GeoImportError>(
                GeoImportError::PointsCountMismatch {
                    expected: old(self).vertices@.len() as usize,
                    provided: geo_figure@.len() as usize,
                },
            ) && final(self).vertices == old(self).vertices,
    {
        if geo_figure.len() != self.vertices.len() {
            return Err(
                GeoImportError::PointsCountMismatch {
                    expected: self.vertices.len(),
                    provided: geo_figure.len(),
                },
            );
        }
        self.vertices = geo_figure;
        Ok(())
    }
}

} // verus!
