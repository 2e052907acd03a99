use csp_solver::jolka::{Jolka, JolkaSolution, Words};
use csp_solver::jolka_parser::parse_board;
use csp_solver::solvers::{backtracking, forward_checking, RandomSource, ValueSelector, VariableSelector};
use csp_solver::sudoku::{Number, Numbers, Sudoku, SudokuSolution};

#[test]
fn jolka_cross_puzzle_has_two_solutions() {
    // two horizontal slots crossed by one vertical slot through the middle
    let board = parse_board("___\n#_#\n___").unwrap();
    let words = vec!["AAA".to_owned(), "BBB".to_owned()];
    let jolka = Jolka::new(board, words).unwrap();
    let bt = backtracking::<_, JolkaSolution>(&jolka, VariableSelector::OrderOfDefinition, ValueSelector::OrderOfDefinition, &mut RandomSource::from_seed(1));
    let fc = forward_checking::<_, JolkaSolution>(&jolka, VariableSelector::OrderOfDefinition, ValueSelector::OrderOfDefinition, &mut RandomSource::from_seed(1));
    let mut bt_assignments = bt.assignments.clone();
    bt_assignments.sort();
    let mut fc_assignments = fc.assignments.clone();
    fc_assignments.sort();
    // the crossing forces all three slots onto the same word
    assert_eq!(bt_assignments, vec![vec![0, 0, 0], vec![1, 1, 1]]);
    assert_eq!(fc_assignments, bt_assignments);
    for (i, solution) in bt.solutions.iter().enumerate() {
        let c = if bt.assignments[i][0] == 0 { 'A' } else { 'B' };
        assert_eq!(
            solution.board,
            vec![
                vec![Some(c), Some(c), Some(c)],
                vec![None, Some(c), None],
                vec![Some(c), Some(c), Some(c)],
            ]
        );
    }
}

#[test]
fn jolka_without_matching_words_is_unsolvable() {
    let board = parse_board("__\n__").unwrap();
    // no word of length two: every slot's domain is empty
    let words = vec!["AAA".to_owned()];
    let jolka = Jolka::new(board, words).unwrap();
    let r = backtracking::<_, JolkaSolution>(&jolka, VariableSelector::OrderOfDefinition, ValueSelector::OrderOfDefinition, &mut RandomSource::from_seed(1));
    assert_eq!(r.assignments.len(), 0);
}

#[test]
fn jolka_rejects_ragged_boards() {
    let board = vec![
        vec![csp_solver::jolka::Cell::Empty, csp_solver::jolka::Cell::Empty],
        vec![csp_solver::jolka::Cell::Empty],
    ];
    assert!(Jolka::new(board, vec![]).is_none());
    assert!(Jolka::new(vec![], vec![]).is_none());
}

/// A full valid grid: digit `(x + 3 * (y % 3) + y / 3) % 9 + 1` at `(x, y)`.
fn pattern_digit(x: usize, y: usize) -> u64 {
    ((x + 3 * (y % 3) + y / 3) % 9 + 1) as u64
}

#[test]
fn sudoku_completes_missing_cells() {
    let mut clues: Vec<Vec<Option<Number>>> = Vec::new();
    for y in 0..9 {
        let mut row = Vec::new();
        for x in 0..9 {
            // blank two cells; the constraints force them back
            if (x, y) == (0, 0) || (x, y) == (4, 5) {
                row.push(None);
            } else {
                row.push(Number::from_value(pattern_digit(x, y)));
            }
        }
        clues.push(row);
    }
    let sudoku = Sudoku::new(clues).unwrap();
    let fc = forward_checking::<_, SudokuSolution>(&sudoku, VariableSelector::MostConstrainedVariable, ValueSelector::OrderOfDefinition, &mut RandomSource::from_seed(1));
    assert_eq!(fc.assignments.len(), 1);
    let solution = &fc.solutions[0];
    for y in 0..9 {
        for x in 0..9 {
            assert_eq!(solution.board[y][x].value(), pattern_digit(x, y));
        }
    }
}

#[test]
fn sudoku_rejects_wrongly_shaped_grids() {
    assert!(Sudoku::new(vec![]).is_none());
    assert!(Sudoku::new(vec![vec![None; 8]; 9]).is_none());
    assert!(Sudoku::new(vec![vec![None; 9]; 8]).is_none());
}

#[test]
fn sudoku_contradictory_clues_give_empty_set() {
    let mut clues: Vec<Vec<Option<Number>>> = vec![vec![None; 9]; 9];
    // two equal digits in one row
    clues[0][0] = Some(Number::Five);
    clues[0][1] = Some(Number::Five);
    let sudoku = Sudoku::new(clues).unwrap();
    let r = forward_checking::<_, SudokuSolution>(&sudoku, VariableSelector::OrderOfDefinition, ValueSelector::OrderOfDefinition, &mut RandomSource::from_seed(1));
    assert_eq!(r.assignments.len(), 0);
    assert_eq!(r.statistics.visited_nodes, 0);
}

#[test]
fn numbers_iterate_one_through_nine() {
    let mut numbers = Numbers::new();
    let mut seen = Vec::new();
    while let Some(n) = numbers.next() {
        seen.push(n.value());
    }
    assert_eq!(seen, vec![1, 2, 3, 4, 5, 6, 7, 8, 9]);
    assert_eq!(numbers.next(), None);
}

#[test]
fn number_round_trips_through_its_value() {
    for d in 1..=9u64 {
        assert_eq!(Number::from_value(d).unwrap().value(), d);
    }
    assert_eq!(Number::from_value(0), None);
    assert_eq!(Number::from_value(10), None);
}

#[test]
fn words_hand_out_each_word_once() {
    let mut words = Words::new(vec!["ARA".to_owned(), "OKO".to_owned()]);
    assert_eq!(words.next(), Some("ARA".to_owned()));
    assert_eq!(words.next(), Some("OKO".to_owned()));
    assert_eq!(words.next(), None);
}
