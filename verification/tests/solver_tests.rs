use csp_solver::explicit::{ExplicitProblem, ExplicitSolution};
use csp_solver::solvers::{backtracking, forward_checking, RandomSource, SearchResult, ValueSelector, VariableSelector};
use csp_solver::sudoku::Unique;

fn neq(a: usize, b: usize) -> Unique {
    Unique { cell_a: a, cell_b: b }
}

fn problem(
    domains: Vec<Vec<u64>>,
    initial: Vec<Option<u64>>,
    constraints: Vec<Unique>,
) -> ExplicitProblem<Unique> {
    ExplicitProblem { domains, initial, constraints }
}

fn sorted_assignments(r: &SearchResult<ExplicitSolution>) -> Vec<Vec<u64>> {
    let mut a = r.assignments.clone();
    a.sort();
    a
}

fn run(
    p: &ExplicitProblem<Unique>,
    vs: VariableSelector,
    vls: ValueSelector,
    fc: bool,
    seed: u64,
) -> SearchResult<ExplicitSolution> {
    let mut random = RandomSource::from_seed(seed);
    if fc {
        forward_checking(p, vs, vls, &mut random)
    } else {
        backtracking(p, vs, vls, &mut random)
    }
}

// With no constraints, both solvers return every combination: k^n solutions.
#[test]
fn no_constraints_counts_all_combinations() {
    let p = problem(vec![vec![1, 2], vec![1, 2], vec![1, 2]], vec![None, None, None], vec![]);
    let bt = run(&p, VariableSelector::OrderOfDefinition, ValueSelector::OrderOfDefinition, false, 7);
    let fc = run(&p, VariableSelector::OrderOfDefinition, ValueSelector::OrderOfDefinition, true, 7);
    assert_eq!(bt.assignments.len(), 8);
    assert_eq!(fc.assignments.len(), 8);
    assert_eq!(bt.statistics.solutions_found, 8);
    assert_eq!(fc.statistics.solutions_found, 8);
    assert_eq!(sorted_assignments(&bt), sorted_assignments(&fc));
    // the constructed solutions carry the assignments themselves
    for (i, s) in bt.solutions.iter().enumerate() {
        assert_eq!(s.values, bt.assignments[i]);
    }
}

// Two variables over {1,2,3} with one inequality: exactly the six ordered
// pairs of distinct values, and forward checking visits no more nodes.
#[test]
fn binary_inequality_six_solutions() {
    let p = problem(
        vec![vec![1, 2, 3], vec![1, 2, 3]],
        vec![None, None],
        vec![neq(0, 1)],
    );
    let bt = run(&p, VariableSelector::OrderOfDefinition, ValueSelector::OrderOfDefinition, false, 7);
    let fc = run(&p, VariableSelector::OrderOfDefinition, ValueSelector::OrderOfDefinition, true, 7);
    let expected: Vec<Vec<u64>> = vec![
        vec![1, 2],
        vec![1, 3],
        vec![2, 1],
        vec![2, 3],
        vec![3, 1],
        vec![3, 2],
    ];
    assert_eq!(sorted_assignments(&bt), expected);
    assert_eq!(sorted_assignments(&fc), expected);
    assert!(fc.statistics.visited_nodes <= bt.statistics.visited_nodes);
}

// Two-coloring a triangle is impossible: both solvers return the empty set.
#[test]
fn unsatisfiable_triangle_returns_empty_set() {
    let p = problem(
        vec![vec![1, 2], vec![1, 2], vec![1, 2]],
        vec![None, None, None],
        vec![neq(0, 1), neq(1, 2), neq(0, 2)],
    );
    let bt = run(&p, VariableSelector::OrderOfDefinition, ValueSelector::OrderOfDefinition, false, 7);
    let fc = run(&p, VariableSelector::OrderOfDefinition, ValueSelector::OrderOfDefinition, true, 7);
    assert_eq!(bt.assignments.len(), 0);
    assert_eq!(fc.assignments.len(), 0);
    assert_eq!(bt.statistics.solutions_found, 0);
    assert_eq!(fc.statistics.solutions_found, 0);
}

// A pre-fixed variable keeps its value in every returned solution.
#[test]
fn fixed_value_is_preserved() {
    let p = problem(
        vec![vec![1, 2, 3], vec![1, 2, 3]],
        vec![Some(2), None],
        vec![neq(0, 1)],
    );
    let bt = run(&p, VariableSelector::OrderOfDefinition, ValueSelector::OrderOfDefinition, false, 7);
    let fc = run(&p, VariableSelector::OrderOfDefinition, ValueSelector::OrderOfDefinition, true, 7);
    assert_eq!(sorted_assignments(&bt), vec![vec![2, 1], vec![2, 3]]);
    assert_eq!(sorted_assignments(&fc), vec![vec![2, 1], vec![2, 3]]);
    for a in bt.assignments.iter().chain(fc.assignments.iter()) {
        assert_eq!(a[0], 2);
    }
}

// Running a solver twice with the deterministic heuristics gives the same
// solution set (and the same counters).
#[test]
fn deterministic_heuristics_repeat_identically() {
    let p = problem(
        vec![vec![1, 2, 3], vec![1, 2, 3], vec![1, 2]],
        vec![None, None, None],
        vec![neq(0, 1), neq(1, 2)],
    );
    let first = run(&p, VariableSelector::OrderOfDefinition, ValueSelector::OrderOfDefinition, false, 7);
    let second = run(&p, VariableSelector::OrderOfDefinition, ValueSelector::OrderOfDefinition, false, 7);
    assert_eq!(first.assignments, second.assignments);
    assert_eq!(first.statistics, second.statistics);
    let fc1 = run(&p, VariableSelector::OrderOfDefinition, ValueSelector::OrderOfDefinition, true, 7);
    let fc2 = run(&p, VariableSelector::OrderOfDefinition, ValueSelector::OrderOfDefinition, true, 7);
    assert_eq!(fc1.assignments, fc2.assignments);
    assert_eq!(fc1.statistics, fc2.statistics);
}

// The solution set is the same for every heuristic pair and both algorithms;
// only the traversal (the counters) may differ.
#[test]
fn heuristics_never_change_the_solution_set() {
    let p = problem(
        vec![vec![1, 2, 3], vec![2, 3], vec![1, 3], vec![1, 2, 3]],
        vec![None, None, None, None],
        vec![neq(0, 1), neq(1, 2), neq(2, 3), neq(0, 3)],
    );
    let reference = sorted_assignments(&run(&p, VariableSelector::OrderOfDefinition, ValueSelector::OrderOfDefinition, false, 7));
    let variable_selectors = [
        VariableSelector::OrderOfDefinition,
        VariableSelector::MostConstrainedVariable,
        VariableSelector::Random,
    ];
    let value_selectors = [ValueSelector::OrderOfDefinition, ValueSelector::Random];
    for fc in [false, true] {
        for vs in variable_selectors {
            for vls in value_selectors {
                let r = run(&p, vs, vls, fc, 12345);
                assert_eq!(sorted_assignments(&r), reference);
            }
        }
    }
}

// A fresh, unseeded random source still never changes the answer.
#[test]
fn entropy_seeded_random_heuristics_agree() {
    let p = problem(
        vec![vec![1, 2, 3], vec![1, 2, 3]],
        vec![None, None],
        vec![neq(0, 1)],
    );
    let reference = sorted_assignments(&run(&p, VariableSelector::OrderOfDefinition, ValueSelector::OrderOfDefinition, false, 7));
    let mut random = RandomSource::from_entropy();
    let r: SearchResult<ExplicitSolution> =
        backtracking(&p, VariableSelector::Random, ValueSelector::Random, &mut random);
    assert_eq!(sorted_assignments(&r), reference);
}

// When one forced assignment empties a neighboring domain, forward checking
// abandons the branch at once: no descendant node is visited.
#[test]
fn pruning_cutoff_skips_descendants() {
    let p = problem(vec![vec![1], vec![1]], vec![None, None], vec![neq(0, 1)]);
    let fc = run(&p, VariableSelector::OrderOfDefinition, ValueSelector::OrderOfDefinition, true, 7);
    let bt = run(&p, VariableSelector::OrderOfDefinition, ValueSelector::OrderOfDefinition, false, 7);
    // forward checking tries the single value of the first variable and stops
    assert_eq!(fc.statistics.visited_nodes, 1);
    // backtracking still descends and tries the second variable's value
    assert_eq!(bt.statistics.visited_nodes, 2);
    assert_eq!(fc.assignments.len(), 0);
    assert_eq!(bt.assignments.len(), 0);
}

// An initial assignment that breaks a constraint, or falls outside a domain,
// yields the empty set rather than an error.
#[test]
fn inconsistent_initial_assignments_give_empty_set() {
    let broken = problem(
        vec![vec![1, 2], vec![1, 2]],
        vec![Some(1), Some(1)],
        vec![neq(0, 1)],
    );
    let bt = run(&broken, VariableSelector::OrderOfDefinition, ValueSelector::OrderOfDefinition, false, 7);
    assert_eq!(bt.assignments.len(), 0);
    let outside = problem(vec![vec![1, 2]], vec![Some(7)], vec![]);
    let fc = run(&outside, VariableSelector::OrderOfDefinition, ValueSelector::OrderOfDefinition, true, 7);
    assert_eq!(fc.assignments.len(), 0);
}

// Exact counter values for a tiny run: one variable, two values, no
// constraints.
#[test]
fn statistics_count_nodes_and_backtracks() {
    let p = problem(vec![vec![1, 2]], vec![None], vec![]);
    let bt = run(&p, VariableSelector::OrderOfDefinition, ValueSelector::OrderOfDefinition, false, 7);
    assert_eq!(bt.statistics.visited_nodes, 2);
    assert_eq!(bt.statistics.solutions_found, 2);
    // one backtrack per solution leaf plus the exhausted level, minus the
    // run's final return
    assert_eq!(bt.statistics.backtracks, 2);
}

// The most-constrained-variable heuristic is about order, not content: it
// still returns the same set as natural order.
#[test]
fn most_constrained_variable_matches_natural_order() {
    let p = problem(
        vec![vec![1, 2, 3], vec![1, 2]],
        vec![None, None],
        vec![neq(0, 1)],
    );
    let def = run(&p, VariableSelector::OrderOfDefinition, ValueSelector::OrderOfDefinition, false, 7);
    let mcv = run(&p, VariableSelector::MostConstrainedVariable, ValueSelector::OrderOfDefinition, false, 7);
    assert_eq!(sorted_assignments(&def), sorted_assignments(&mcv));
}
