use csp_solver::jolka::Cell::{Empty, Full};
use csp_solver::jolka_parser::{parse_board, parse_words, transpose};
use csp_solver::sudoku::Number;

#[test]
fn test_parse_board() {
    assert_eq!(
        parse_board("___##__#\n#____#_#\n__#___##").unwrap(),
        vec!(
            vec!(Empty, Empty, Empty, Full, Full, Empty, Empty, Full),
            vec!(Full, Empty, Empty, Empty, Empty, Full, Empty, Full),
            vec!(Empty, Empty, Full, Empty, Empty, Empty, Full, Full),
        )
    );
}

#[test]
fn test_parse_board_error() {
    assert!(parse_board("___#\n##;_").is_err());
}

#[test]
fn test_parse_words() {
    assert_eq!(parse_words("ABC\nTEST\nIJK"), vec!("ABC", "TEST", "IJK"))
}

#[test]
fn test_transpose() {
    let rows = vec![
        vec![Empty, Empty, Empty, Full],
        vec![Full, Empty, Empty, Full],
        vec![Empty, Empty, Full, Full],
    ];

    assert_eq!(
        transpose(&rows),
        vec!(
            vec!(Empty, Full, Empty),
            vec!(Empty, Empty, Empty),
            vec!(Empty, Empty, Full),
            vec!(Full, Full, Full)
        )
    )
}

#[test]
fn parser_test_parse_board() {
    assert_eq!(
        csp_solver::sudoku_parser::parse_board(
            "....3..5..8...5..1.592.63..42.5......6.4.2........9..5.46.....3.....78..........4"
        )
        .unwrap(),
        vec![
            vec![None, None, None, Some(Number::Four), None, None, None, None, None],
            vec![
                None,
                Some(Number::Eight),
                Some(Number::Five),
                Some(Number::Two),
                Some(Number::Six),
                None,
                Some(Number::Four),
                None,
                None
            ],
            vec![None, None, Some(Number::Nine), None, None, None, Some(Number::Six), None, None],
            vec![
                None,
                None,
                Some(Number::Two),
                Some(Number::Five),
                Some(Number::Four),
                None,
                None,
                None,
                None
            ],
            vec![Some(Number::Three), None, None, None, None, None, None, None, None],
            vec![
                None,
                Some(Number::Five),
                Some(Number::Six),
                None,
                Some(Number::Two),
                Some(Number::Nine),
                None,
                Some(Number::Seven),
                None
            ],
            vec![None, None, Some(Number::Three), None, None, None, None, Some(Number::Eight), None],
            vec![Some(Number::Five), None, None, None, None, None, None, None, None],
            vec![
                None,
                Some(Number::One),
                None,
                None,
                None,
                Some(Number::Five),
                Some(Number::Three),
                None,
                Some(Number::Four)
            ]
        ]
    );
}

#[test]
fn test_parse_board_error_invalid_character() {
    assert!(csp_solver::sudoku_parser::parse_board(
        "......2.6...7....8.5.... .36.1.5.32.....37.....2......9...7......36..4915..81...."
    )
    .is_err());
}

#[test]
fn test_parse_board_error_not_enough_fields() {
    assert!(csp_solver::sudoku_parser::parse_board("...4..").is_err());
}

#[test]
fn test_parse_board_error_too_many_fields() {
    assert!(csp_solver::sudoku_parser::parse_board(
        ".3.79.......6.8....27..5...3...4..9....8.94......6..58....82..118.9.....7.5...6..."
    )
    .is_err());
}

#[test]
fn test_group_board() {
    let mut board: Vec<Vec<usize>> = vec![vec![0; 9]; 9];
    for y in 0..9 {
        for x in 0..9 {
            board[y][x] = y * 9 + x
        }
    }
    let columns = csp_solver::sudoku_parser::group_board_by_columns(&board);
    let boxes = csp_solver::sudoku_parser::group_board_by_boxes(&board);

    assert_eq!(
        columns,
        vec![
            vec![0, 9, 18, 27, 36, 45, 54, 63, 72],
            vec![1, 10, 19, 28, 37, 46, 55, 64, 73],
            vec![2, 11, 20, 29, 38, 47, 56, 65, 74],
            vec![3, 12, 21, 30, 39, 48, 57, 66, 75],
            vec![4, 13, 22, 31, 40, 49, 58, 67, 76],
            vec![5, 14, 23, 32, 41, 50, 59, 68, 77],
            vec![6, 15, 24, 33, 42, 51, 60, 69, 78],
            vec![7, 16, 25, 34, 43, 52, 61, 70, 79],
            vec![8, 17, 26, 35, 44, 53, 62, 71, 80]
        ]
    );

    assert_eq!(
        boxes,
        vec![
            vec![0, 1, 2, 9, 10, 11, 18, 19, 20],
            vec![3, 4, 5, 12, 13, 14, 21, 22, 23],
            vec![6, 7, 8, 15, 16, 17, 24, 25, 26],
            vec![27, 28, 29, 36, 37, 38, 45, 46, 47],
            vec![30, 31, 32, 39, 40, 41, 48, 49, 50],
            vec![33, 34, 35, 42, 43, 44, 51, 52, 53],
            vec![54, 55, 56, 63, 64, 65, 72, 73, 74],
            vec![57, 58, 59, 66, 67, 68, 75, 76, 77],
            vec![60, 61, 62, 69, 70, 71, 78, 79, 80]
        ]
    );
}

#[test]
fn test_parse_board_reports_first_invalid_character() {
    match parse_board("__\nx_") {
        Err(csp_solver::jolka_parser::Error::InvalidCharacter { character, line, position }) => {
            assert_eq!(character, 'x');
            assert_eq!(line, 1);
            assert_eq!(position, 0);
        }
        _ => panic!("expected an invalid-character error"),
    }
}

#[test]
fn test_sudoku_parse_board_error_details() {
    match csp_solver::sudoku_parser::parse_board("..7!....") {
        Err(csp_solver::sudoku_parser::Error::InvalidCharacter { character, position }) => {
            assert_eq!(character, '!');
            assert_eq!(position, 3);
        }
        _ => panic!("expected an invalid-character error"),
    }
}

#[test]
fn test_parse_words_skips_repeated_whitespace() {
    assert_eq!(parse_words("  AB\n\nCD \t EF  "), vec!("AB", "CD", "EF"));
    assert_eq!(parse_words(""), Vec::<String>::new());
}
