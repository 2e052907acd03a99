use csp_solver::cli::{parse_algorithm, value_selection_heuristic, variable_selection_heuristic, Algorithm, Error};
use csp_solver::solvers::{Order, Statistics, ValueSelector, VariableSelector};

#[test]
fn parse_algorithm_accepts_both_codes() {
    assert!(matches!(parse_algorithm("bt"), Ok(Algorithm::Backtracking)));
    assert!(matches!(parse_algorithm("fc"), Ok(Algorithm::ForwardChecking)));
    match parse_algorithm("dfs") {
        Err(Error::InvalidAlgorithmName { name }) => assert_eq!(name, "dfs"),
        _ => panic!("expected an invalid-algorithm error"),
    }
}

#[test]
fn parse_variable_selection_heuristics() {
    assert!(matches!(
        variable_selection_heuristic("def"),
        Ok(VariableSelector::OrderOfDefinition)
    ));
    assert!(matches!(
        variable_selection_heuristic("mcv"),
        Ok(VariableSelector::MostConstrainedVariable)
    ));
    assert!(matches!(variable_selection_heuristic("rand"), Ok(VariableSelector::Random)));
    match variable_selection_heuristic("lex") {
        Err(Error::InvalidVariableSelectorHeuristicName { name }) => assert_eq!(name, "lex"),
        _ => panic!("expected an invalid-heuristic error"),
    }
}

#[test]
fn parse_value_selection_heuristics() {
    assert!(matches!(
        value_selection_heuristic("def"),
        Ok(ValueSelector::OrderOfDefinition)
    ));
    assert!(matches!(
        value_selection_heuristic("lcv"),
        Ok(ValueSelector::LeastConstrainingValue)
    ));
    assert!(matches!(value_selection_heuristic("rand"), Ok(ValueSelector::Random)));
    match value_selection_heuristic("most") {
        Err(Error::InvalidValueSelectorHeuristicName { name }) => assert_eq!(name, "most"),
        _ => panic!("expected an invalid-heuristic error"),
    }
}

#[test]
fn algorithm_codes_round_trip() {
    assert_eq!(Algorithm::Backtracking.code(), "bt");
    assert_eq!(Algorithm::ForwardChecking.code(), "fc");
    assert!(matches!(
        parse_algorithm(Algorithm::Backtracking.code()),
        Ok(Algorithm::Backtracking)
    ));
    assert!(matches!(
        parse_algorithm(Algorithm::ForwardChecking.code()),
        Ok(Algorithm::ForwardChecking)
    ));
}

#[test]
fn heuristic_codes_round_trip() {
    for vs in [
        VariableSelector::OrderOfDefinition,
        VariableSelector::MostConstrainedVariable,
        VariableSelector::Random,
    ] {
        assert!(matches!(variable_selection_heuristic(vs.code()), Ok(v) if v == vs));
    }
    for vls in [
        ValueSelector::OrderOfDefinition,
        ValueSelector::LeastConstrainingValue,
        ValueSelector::Random,
    ] {
        assert!(matches!(value_selection_heuristic(vls.code()), Ok(v) if v == vls));
    }
}

#[test]
fn order_hands_out_candidates_from_both_ends() {
    let mut order: Order<usize> = Order::new(vec![10, 20, 30]);
    assert_eq!(order.next(), Some(10));
    assert_eq!(order.next(), Some(20));
    assert_eq!(order.next(), Some(30));
    assert_eq!(order.next(), None);

    let mut back: Order<usize> = Order::new(vec![10, 20, 30]);
    assert_eq!(back.next_back(), Some(30));
    assert_eq!(back.next_back(), Some(20));
    assert_eq!(back.next_back(), Some(10));
    assert_eq!(back.next_back(), None);
}

#[test]
fn statistics_start_at_zero() {
    let s = Statistics::new();
    assert_eq!(s.visited_nodes, 0);
    assert_eq!(s.backtracks, 0);
    assert_eq!(s.solutions_found, 0);
}
