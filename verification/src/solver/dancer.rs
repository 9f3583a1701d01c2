//! The solver that places the figure vertex by vertex.

use crate::solver::Solver;
use vstd::prelude::*;

verus! {

/// The state of the placement.
pub struct DancerSolver {
    solver: Solver,
}

impl DancerSolver {
    /// The shared state that the placement works on.
    pub closed spec fn solver(&self) -> Solver {
        self.solver
    }

    /// Sets the placement up on the shared state.
    pub fn new(solver: Solver) -> (r: DancerSolver)
        ensures
            r.solver() == solver,
    {
        DancerSolver { solver }
    }

    /// Places nothing yet.
    pub fn solve(&self) {
    }

    /// Places nothing yet.
    pub fn place_vertex(&self) {
    }
}

} // verus!
