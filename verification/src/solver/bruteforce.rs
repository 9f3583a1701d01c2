//! The solver that tries every point of the field for every vertex.

use crate::solver::Solver;
use vstd::prelude::*;

verus! {

/// The state of the exhaustive search.
pub struct BruteforceSolver {
    solver: Solver,
}

impl BruteforceSolver {
    /// The shared state that the search works on.
    pub closed spec fn solver(&self) -> Solver {
        self.solver
    }

    /// Sets the search up on the shared state.
    pub fn new(solver: Solver) -> (r: BruteforceSolver)
        ensures
            r.solver() == solver,
    {
        BruteforceSolver { solver }
    }
}

} // verus!
