//! The solver that tries the vertices of the hole first.

use crate::problem::{distance_table, first_bonus, Point, PoseBonus};
use crate::solver::Solver;
use vstd::prelude::*;

verus! {

/// A box of candidate points, by two opposite corners in any order.
#[derive(Clone, Copy, PartialEq, Eq, Hash, Debug, Structural)]
pub struct BoundingBox(Point, Point);

impl BoundingBox {
    /// The box as the problem's kind of box.
    pub closed spec fn corners(&self) -> crate::problem::BoundingBox {
        crate::problem::BoundingBox(self.0, self.1)
    }

    /// The points of the box that have no negative coordinate, each once,
    /// in the order of the points.
    pub fn point_set(&self) -> (points: Vec<Point>)
        ensures
            forall|p: Point| #[trigger] points@.contains(p) <==> self.corners().covers(p),
            crate::problem::ascending(points@),
            points@.no_duplicates(),
    {
        crate::problem::BoundingBox(self.0, self.1).point_set()
    }
}

/// The state of the search: the shared state, the table of the squared edge
/// lengths of the figure, and the bonus that the starting pose uses.
pub struct BruteforceHoleSolver {
    solver: Solver,
    distances: Vec<i64>,
    bonus: Option<PoseBonus>,
}

impl BruteforceHoleSolver {
    /// The shared state that the search works on.
    pub closed spec fn solver(&self) -> Solver {
        self.solver
    }

    /// The table of the squared edge lengths.
    pub closed spec fn distances(&self) -> Seq<i64> {
        self.distances@
    }

    /// The bonus that the search may use.
    pub closed spec fn bonus(&self) -> Option<PoseBonus> {
        self.bonus
    }

    /// Sets the search up on the shared state: works out the table of the
    /// squared edge lengths, and takes the bonus of the starting pose.
    pub fn new(solver: Solver) -> (r: BruteforceHoleSolver)
        requires
            solver.problem().figure.vertices@.len() * solver.problem().figure.vertices@.len()
                <= usize::MAX,
            solver.pose().bonuses matches Some(list) ==> list@.len() > 0,
        ensures
            r.solver() == solver,
            r.distances() == distance_table(
                solver.problem().figure.edges@,
                solver.problem().figure.vertices@,
            ),
            r.bonus() == first_bonus(solver.pose().bonuses),
    {
        proof {
            use_type_invariant(&solver);
        }
        let distances = solver.problem.distance_cache();
        let bonus = solver.pose.bonus();
        BruteforceHoleSolver { distances, bonus, solver }
    }
}

} // verus!
