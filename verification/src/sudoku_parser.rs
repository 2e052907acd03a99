use vstd::prelude::*;

use crate::sudoku::{Cell, Number};

verus! {

/// Why a number-grid board text was refused.
#[derive(Debug)]
pub enum Error {
    InvalidCharacter { character: char, position: usize },
    NotEnoughFields,
    TooManyFields,
}

/// A character of a board text that names neither a digit nor a blank.
pub open spec fn invalid_board_char(c: char) -> bool {
    !(c == '.' || '1' <= c && c <= '9')
}

/// The clue a board character stands for: a digit, or nothing for `.`.
pub open spec fn clue_of(c: char) -> Option<Number> {
    if c == '1' {
        Some(Number::One)
    } else if c == '2' {
        Some(Number::Two)
    } else if c == '3' {
        Some(Number::Three)
    } else if c == '4' {
        Some(Number::Four)
    } else if c == '5' {
        Some(Number::Five)
    } else if c == '6' {
        Some(Number::Six)
    } else if c == '7' {
        Some(Number::Seven)
    } else if c == '8' {
        Some(Number::Eight)
    } else if c == '9' {
        Some(Number::Nine)
    } else {
        None
    }
}

/// The 9-by-9 clue grid parsed from exactly 81 board characters, read in
/// column-major order: character `i` lands in row `i % 9`, column `i / 9`.
/// The first character that is neither a digit nor `.` is reported; a text of
/// the wrong length with only valid characters is refused by length.
pub fn parse_board(source: &str) -> (r: Result<Vec<Vec<Option<Number>>>, Error>)
    ensures
        ({
            let s = source@;
            match r {
                Ok(board) => {
                    &&& forall|i: int| 0 <= i < s.len() ==> !invalid_board_char(#[trigger] s[i])
                    &&& s.len() == 81
                    &&& board@.len() == 9
                    &&& forall|y: int| 0 <= y < 9 ==> (#[trigger] board@[y])@.len() == 9
                    &&& forall|y: int, x: int|
                        0 <= y < 9 && 0 <= x < 9 ==> (#[trigger] board@[y]@[x]) == clue_of(
                            s[x * 9 + y],
                        )
                },
                Err(e) => match e {
                    Error::InvalidCharacter { character, position } => {
                        &&& (position as int) < s.len()
                        &&& invalid_board_char(s[position as int])
                        &&& character == s[position as int]
                        &&& forall|i: int|
                            0 <= i < position ==> !invalid_board_char(#[trigger] s[i])
                    },
                    Error::NotEnoughFields => {
                        &&& forall|i: int|
                            0 <= i < s.len() ==> !invalid_board_char(#[trigger] s[i])
                        &&& s.len() < 81
                    },
                    Error::TooManyFields => {
                        &&& forall|i: int|
                            0 <= i < s.len() ==> !invalid_board_char(#[trigger] s[i])
                        &&& s.len() > 81
                    },
                },
            }
        }),
{
    let n = source.unicode_len();
    let mut clues: Vec<Option<Number>> = Vec::new();
    let mut i: usize = 0;
    while i < n
        invariant
            i <= n,
            n == source@.len(),
            clues@.len() == i,
            forall|t: int| 0 <= t < i ==> !invalid_board_char(#[trigger] source@[t]),
            forall|t: int| 0 <= t < i ==> (#[trigger] clues@[t]) == clue_of(source@[t]),
        decreases n - i,
    {
        let c = source.get_char(i);
        let clue = match c {
            '1' => Some(Number::One),
            '2' => Some(Number::Two),
            '3' => Some(Number::Three),
            '4' => Some(Number::Four),
            '5' => Some(Number::Five),
            '6' => Some(Number::Six),
            '7' => Some(Number::Seven),
            '8' => Some(Number::Eight),
            '9' => Some(Number::Nine),
            '.' => None,
            _ => {
                return Err(Error::InvalidCharacter { character: c, position: i });
            },
        };
        clues.push(clue);
        i = i + 1;
    }
    if n < 81 {
        return Err(Error::NotEnoughFields);
    }
    if n > 81 {
        return Err(Error::TooManyFields);
    }
    let mut board: Vec<Vec<Option<Number>>> = Vec::new();
    let mut y: usize = 0;
    while y < 9
        invariant
            y <= 9,
            n == source@.len(),
            n == 81,
            clues@.len() == 81,
            forall|t: int| 0 <= t < 81 ==> (#[trigger] clues@[t]) == clue_of(source@[t]),
            board@.len() == y,
            forall|t: int| 0 <= t < y ==> (#[trigger] board@[t])@.len() == 9,
            forall|t: int, x: int|
                0 <= t < y && 0 <= x < 9 ==> (#[trigger] board@[t]@[x]) == clue_of(
                    source@[x * 9 + t],
                ),
        decreases 9 - y,
    {
        let mut row: Vec<Option<Number>> = Vec::new();
        let mut x: usize = 0;
        while x < 9
            invariant
                x <= 9,
                y < 9,
                n == source@.len(),
                n == 81,
                clues@.len() == 81,
                forall|t: int| 0 <= t < 81 ==> (#[trigger] clues@[t]) == clue_of(source@[t]),
                row@.len() == x,
                forall|t: int|
                    0 <= t < x ==> (#[trigger] row@[t]) == clue_of(source@[t * 9 + y]),
            decreases 9 - x,
        {
            row.push(clues[x * 9 + y]);
            x = x + 1;
        }
        board.push(row);
        y = y + 1;
    }
    Ok(board)
}

/// The 9-by-9 grid of cells, each holding its own `(x, y)` position.
pub fn make_rows_of_cells() -> (r: Vec<Vec<Cell>>)
    ensures
        r@.len() == 9,
        forall|y: int| 0 <= y < 9 ==> (#[trigger] r@[y])@.len() == 9,
        forall|y: int, x: int|
            0 <= y < 9 && 0 <= x < 9 ==> (#[trigger] r@[y]@[x]).position == (
                x as usize,
                y as usize,
            ),
{
    let mut rows: Vec<Vec<Cell>> = Vec::new();
    let mut y: usize = 0;
    while y < 9
        invariant
            y <= 9,
            rows@.len() == y,
            forall|t: int| 0 <= t < y ==> (#[trigger] rows@[t])@.len() == 9,
            forall|t: int, x: int|
                0 <= t < y && 0 <= x < 9 ==> (#[trigger] rows@[t]@[x]).position == (
                    x as usize,
                    t as usize,
                ),
        decreases 9 - y,
    {
        let mut row: Vec<Cell> = Vec::new();
        let mut x: usize = 0;
        while x < 9
            invariant
                x <= 9,
                y < 9,
                row@.len() == x,
                forall|t: int|
                    0 <= t < x ==> (#[trigger] row@[t]).position == (t as usize, y as usize),
            decreases 9 - x,
        {
            row.push(Cell { position: (x, y) });
            x = x + 1;
        }
        rows.push(row);
        y = y + 1;
    }
    rows
}

/// The nine rows of the grid, each cell at its own place.
pub fn group_board_by_rows<T: Copy>(board: &Vec<Vec<T>>) -> (r: Vec<Vec<T>>)
    requires
        board@.len() == 9,
        forall|y: int| 0 <= y < 9 ==> (#[trigger] board@[y])@.len() == 9,
    ensures
        r@.len() == 9,
        forall|y: int| 0 <= y < 9 ==> (#[trigger] r@[y])@.len() == 9,
        forall|y: int, x: int|
            0 <= y < 9 && 0 <= x < 9 ==> (#[trigger] r@[y]@[x]) == board@[y]@[x],
{
    let mut rows: Vec<Vec<T>> = Vec::new();
    let mut y: usize = 0;
    while y < 9
        invariant
            y <= 9,
            board@.len() == 9,
            forall|t: int| 0 <= t < 9 ==> (#[trigger] board@[t])@.len() == 9,
            rows@.len() == y,
            forall|t: int| 0 <= t < y ==> (#[trigger] rows@[t])@.len() == 9,
            forall|t: int, x: int|
                0 <= t < y && 0 <= x < 9 ==> (#[trigger] rows@[t]@[x]) == board@[t]@[x],
        decreases 9 - y,
    {
        let mut row: Vec<T> = Vec::new();
        let mut x: usize = 0;
        while x < 9
            invariant
                x <= 9,
                y < 9,
                board@.len() == 9,
                forall|t: int| 0 <= t < 9 ==> (#[trigger] board@[t])@.len() == 9,
                row@.len() == x,
                forall|t: int| 0 <= t < x ==> (#[trigger] row@[t]) == board@[y as int]@[t],
            decreases 9 - x,
        {
            row.push(board[y][x]);
            x = x + 1;
        }
        rows.push(row);
        y = y + 1;
    }
    rows
}

/// The nine columns of the grid: entry `(y, x)` of the result is entry
/// `(x, y)` of the grid.
pub fn group_board_by_columns<T: Copy>(board: &Vec<Vec<T>>) -> (r: Vec<Vec<T>>)
    requires
        board@.len() == 9,
        forall|y: int| 0 <= y < 9 ==> (#[trigger] board@[y])@.len() == 9,
    ensures
        r@.len() == 9,
        forall|y: int| 0 <= y < 9 ==> (#[trigger] r@[y])@.len() == 9,
        forall|y: int, x: int|
            0 <= y < 9 && 0 <= x < 9 ==> (#[trigger] r@[y]@[x]) == board@[x]@[y],
{
    let mut columns: Vec<Vec<T>> = Vec::new();
    let mut y: usize = 0;
    while y < 9
        invariant
            y <= 9,
            board@.len() == 9,
            forall|t: int| 0 <= t < 9 ==> (#[trigger] board@[t])@.len() == 9,
            columns@.len() == y,
            forall|t: int| 0 <= t < y ==> (#[trigger] columns@[t])@.len() == 9,
            forall|t: int, x: int|
                0 <= t < y && 0 <= x < 9 ==> (#[trigger] columns@[t]@[x]) == board@[x]@[t],
        decreases 9 - y,
    {
        let mut column: Vec<T> = Vec::new();
        let mut x: usize = 0;
        while x < 9
            invariant
                x <= 9,
                y < 9,
                board@.len() == 9,
                forall|t: int| 0 <= t < 9 ==> (#[trigger] board@[t])@.len() == 9,
                column@.len() == x,
                forall|t: int| 0 <= t < x ==> (#[trigger] column@[t]) == board@[t]@[y as int],
            decreases 9 - x,
        {
            column.push(board[x][y]);
            x = x + 1;
        }
        columns.push(column);
        y = y + 1;
    }
    columns
}

/// The nine 3-by-3 boxes of the grid: the cell at `(x, y)` lands in box
/// `(y / 3) * 3 + x / 3`, at slot `(y % 3) * 3 + x % 3`.
pub fn group_board_by_boxes<T: Copy>(board: &Vec<Vec<T>>) -> (r: Vec<Vec<T>>)
    requires
        board@.len() == 9,
        forall|y: int| 0 <= y < 9 ==> (#[trigger] board@[y])@.len() == 9,
    ensures
        r@.len() == 9,
        forall|y: int| 0 <= y < 9 ==> (#[trigger] r@[y])@.len() == 9,
        forall|b: int, s: int|
            0 <= b < 9 && 0 <= s < 9 ==> (#[trigger] r@[b]@[s]) == board@[(b / 3) * 3 + s / 3]@[(b
                % 3) * 3 + s % 3],
{
    let mut boxes: Vec<Vec<T>> = Vec::new();
    let mut b: usize = 0;
    while b < 9
        invariant
            b <= 9,
            board@.len() == 9,
            forall|t: int| 0 <= t < 9 ==> (#[trigger] board@[t])@.len() == 9,
            boxes@.len() == b,
            forall|t: int| 0 <= t < b ==> (#[trigger] boxes@[t])@.len() == 9,
            forall|t: int, s: int|
                0 <= t < b && 0 <= s < 9 ==> (#[trigger] boxes@[t]@[s]) == board@[(t / 3) * 3 + s
                    / 3]@[(t % 3) * 3 + s % 3],
        decreases 9 - b,
    {
        let mut group: Vec<T> = Vec::new();
        let mut s: usize = 0;
        while s < 9
            invariant
                s <= 9,
                b < 9,
                board@.len() == 9,
                forall|t: int| 0 <= t < 9 ==> (#[trigger] board@[t])@.len() == 9,
                group@.len() == s,
                forall|t: int|
                    0 <= t < s ==> (#[trigger] group@[t]) == board@[(b / 3) * 3 + t / 3]@[(b % 3)
                        * 3 + t % 3],
            decreases 9 - s,
        {
            group.push(board[(b / 3) * 3 + s / 3][(b % 3) * 3 + s % 3]);
            s = s + 1;
        }
        boxes.push(group);
        b = b + 1;
    }
    boxes
}

} // verus!
