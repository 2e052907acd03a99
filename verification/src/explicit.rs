use vstd::prelude::*;

use crate::csp::{Constraint, Solution, CSP};
use crate::solvers::{clone_assignment, clone_domains, clone_values};

verus! {

/// A problem given directly by its data: the candidate values of each
/// variable, the pre-fixed assignments, and the constraints.
pub struct ExplicitProblem<C> {
    pub domains: Vec<Vec<u64>>,
    pub initial: Vec<Option<u64>>,
    pub constraints: Vec<C>,
}

impl<C: Constraint + Copy> CSP for ExplicitProblem<C> {
    type Constraint = C;

    open spec fn spec_domains(&self) -> Seq<Seq<u64>> {
        self.domains@.map_values(|d: Vec<u64>| d@)
    }

    open spec fn spec_initial(&self) -> Seq<Option<u64>> {
        self.initial@
    }

    open spec fn spec_constraints(&self) -> Seq<C> {
        self.constraints@
    }

    fn num_variables(&self) -> (n: usize) {
        self.domains.len()
    }

    fn domains(&self) -> (r: Vec<Vec<u64>>) {
        clone_domains(&self.domains)
    }

    fn initial_assignments(&self) -> (r: Vec<Option<u64>>) {
        clone_assignment(&self.initial)
    }

    fn constraints(&self) -> (r: &Vec<C>) {
        &self.constraints
    }
}

/// The solution of a directly-given problem: the chosen values themselves,
/// one per variable.
pub struct ExplicitSolution {
    pub values: Vec<u64>,
}

impl<C: Constraint + Copy> Solution<ExplicitProblem<C>> for ExplicitSolution {
    open spec fn is_construction(
        problem: &ExplicitProblem<C>,
        env: Seq<u64>,
        s: Self,
    ) -> bool {
        s.values@ == env
    }

    fn construct(problem: &ExplicitProblem<C>, env: &Vec<u64>) -> (r: Self) {
        ExplicitSolution { values: clone_values(env) }
    }
}

} // verus!
