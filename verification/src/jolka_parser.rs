use vstd::prelude::*;

use crate::jolka::{Axis, Cell, Line};

verus! {

/// Why a crossword board text was refused.
#[derive(Debug)]
pub enum Error {
    InvalidCharacter { character: char, line: usize, position: usize },
}

/// The whitespace that separates board rows and words.
pub open spec fn is_space(c: char) -> bool {
    c == ' ' || c == '\t' || c == '\n' || c == '\r' || c == '\u{b}' || c == '\u{c}'
}

fn space_char(c: char) -> (r: bool)
    ensures
        r == is_space(c),
{
    c == ' ' || c == '\t' || c == '\n' || c == '\r' || c == '\u{b}' || c == '\u{c}'
}

/// The maximal whitespace-free pieces of `s`, in order.
pub open spec fn split_ws(s: Seq<char>) -> Seq<Seq<char>>
    decreases s.len(),
{
    if s.len() == 0 {
        Seq::empty()
    } else {
        let rest = split_ws(s.drop_last());
        let c = s.last();
        if is_space(c) {
            rest
        } else if s.len() >= 2 && !is_space(s[s.len() - 2]) {
            rest.update(rest.len() - 1, rest.last().push(c))
        } else {
            rest.push(seq![c])
        }
    }
}

/// Every piece that `split_ws` yields is non-empty and free of whitespace.
pub proof fn lemma_split_ws_words(s: Seq<char>)
    ensures
        forall|k: int|
            0 <= k < split_ws(s).len() ==> (#[trigger] split_ws(s)[k]).len() > 0,
        forall|k: int, t: int|
            0 <= k < split_ws(s).len() && 0 <= t < split_ws(s)[k].len() ==> !is_space(
                #[trigger] split_ws(s)[k][t],
            ),
        s.len() > 0 && !is_space(s.last()) ==> split_ws(s).len() > 0,
    decreases s.len(),
{
    if s.len() > 0 {
        lemma_split_ws_words(s.drop_last());
        let rest = split_ws(s.drop_last());
        let c = s.last();
        let out = split_ws(s);
        if !is_space(c) {
            if s.len() >= 2 && !is_space(s[s.len() - 2]) {
                assert(s.drop_last().last() == s[s.len() - 2]);
                assert(rest.len() > 0);
            }
            assert forall|k: int| 0 <= k < out.len() implies (#[trigger] out[k]).len() > 0 by {
                if s.len() >= 2 && !is_space(s[s.len() - 2]) {
                    if k < rest.len() - 1 {
                        assert(out[k] == rest[k]);
                    } else {
                        assert(out[k] == rest.last().push(c));
                    }
                } else {
                    if k < rest.len() {
                        assert(out[k] == rest[k]);
                    } else {
                        assert(out[k] == seq![c]);
                    }
                }
            }
            assert forall|k: int, t: int|
                0 <= k < out.len() && 0 <= t < out[k].len() implies !is_space(
                #[trigger] out[k][t]) by {
                if s.len() >= 2 && !is_space(s[s.len() - 2]) {
                    if k < rest.len() - 1 {
                        assert(out[k] == rest[k]);
                        assert(!is_space(rest[k][t]));
                    } else {
                        assert(out[k] == rest.last().push(c));
                        if t < rest.last().len() {
                            assert(!is_space(rest[rest.len() - 1][t]));
                            assert(out[k][t] == rest.last()[t]);
                        } else {
                            assert(out[k][t] == c);
                        }
                    }
                } else {
                    if k < rest.len() {
                        assert(out[k] == rest[k]);
                        assert(!is_space(rest[k][t]));
                    } else {
                        assert(out[k] == seq![c]);
                        assert(out[k][t] == c);
                    }
                }
            }
        }
    }
}

/// Relies on String::push: it appends the character to the end of the string.
#[verifier::external_body]
fn push_char(s: &mut String, c: char)
    ensures
        final(s)@ == old(s)@.push(c),
{
    s.push(c);
}

/// The whitespace-separated words of `source`, in order.
pub fn parse_words(source: &str) -> (r: Vec<String>)
    ensures
        r@.len() == split_ws(source@).len(),
        forall|k: int| 0 <= k < r@.len() ==> (#[trigger] r@[k])@ == split_ws(source@)[k],
{
    let n = source.unicode_len();
    let mut words: Vec<String> = Vec::new();
    let mut current = String::new();
    let mut i: usize = 0;
    while i < n
        invariant
            i <= n,
            n == source@.len(),
            ({
                let sp = split_ws(source@.take(i as int));
                if current@.len() == 0 {
                    &&& words@.len() == sp.len()
                    &&& forall|k: int| 0 <= k < sp.len() ==> (#[trigger] words@[k])@ == sp[k]
                    &&& (i == 0 || is_space(source@[i - 1]))
                } else {
                    &&& sp.len() > 0
                    &&& words@.len() == sp.len() - 1
                    &&& forall|k: int| 0 <= k < sp.len() - 1 ==> (#[trigger] words@[k])@ == sp[k]
                    &&& current@ == sp.last()
                    &&& i > 0
                    &&& !is_space(source@[i - 1])
                }
            }),
        decreases n - i,
    {
        let c = source.get_char(i);
        proof {
            assert(source@.take(i + 1).drop_last() =~= source@.take(i as int));
            assert(source@.take(i + 1).last() == source@[i as int]);
        }
        if space_char(c) {
            if current.unicode_len() > 0 {
                words.push(current);
                current = String::new();
            }
        } else {
            push_char(&mut current, c);
        }
        i = i + 1;
    }
    proof {
        assert(source@.take(n as int) =~= source@);
    }
    if current.unicode_len() > 0 {
        words.push(current);
    }
    words
}

/// A board character that names no cell.
pub open spec fn bad_char(c: char) -> bool {
    c != '_' && c != '#'
}

/// The cell a board character stands for.
pub open spec fn cell_of(c: char) -> Cell {
    if c == '_' {
        Cell::Empty
    } else {
        Cell::Full
    }
}

/// The board rows parsed from `source`: one row per whitespace-separated
/// word, `_` an empty cell and `#` a full one.  The first character that is
/// neither, in reading order, is reported instead.
pub fn parse_board(source: &str) -> (r: Result<Vec<Vec<Cell>>, Error>)
    ensures
        ({
            let ws = split_ws(source@);
            match r {
                Ok(board) => {
                    &&& forall|i: int, j: int|
                        0 <= i < ws.len() && 0 <= j < ws[i].len() ==> !bad_char(#[trigger] ws[i][j])
                    &&& board@.len() == ws.len()
                    &&& forall|i: int| 0 <= i < ws.len() ==> (#[trigger] board@[i])@.len() == ws[i].len()
                    &&& forall|i: int, j: int|
                        0 <= i < ws.len() && 0 <= j < ws[i].len() ==> (#[trigger] board@[i]@[j])
                            == cell_of(ws[i][j])
                },
                Err(e) => {
                    &&& (e->line as int) < ws.len()
                    &&& (e->position as int) < ws[e->line as int].len()
                    &&& bad_char(ws[e->line as int][e->position as int])
                    &&& e->character == ws[e->line as int][e->position as int]
                    &&& forall|i2: int, j2: int|
                        0 <= i2 < e->line && 0 <= j2 < ws[i2].len() ==> !bad_char(
                            #[trigger] ws[i2][j2],
                        )
                    &&& forall|j2: int|
                        0 <= j2 < e->position ==> !bad_char(#[trigger] ws[e->line as int][j2])
                },
            }
        }),
{
    let ghost ws = split_ws(source@);
    let words = parse_words(source);
    let mut board: Vec<Vec<Cell>> = Vec::new();
    let mut i: usize = 0;
    while i < words.len()
        invariant
            ws == split_ws(source@),
            i <= words@.len(),
            words@.len() == ws.len(),
            forall|k: int| 0 <= k < ws.len() ==> (#[trigger] words@[k])@ == ws[k],
            board@.len() == i,
            forall|t: int, j: int|
                0 <= t < i && 0 <= j < ws[t].len() ==> !bad_char(#[trigger] ws[t][j]),
            forall|t: int| 0 <= t < i ==> (#[trigger] board@[t])@.len() == ws[t].len(),
            forall|t: int, j: int|
                0 <= t < i && 0 <= j < ws[t].len() ==> (#[trigger] board@[t]@[j]) == cell_of(
                    ws[t][j],
                ),
        decreases words@.len() - i,
    {
        let word = &words[i];
        let m = word.unicode_len();
        let mut row: Vec<Cell> = Vec::new();
        let mut j: usize = 0;
        while j < m
            invariant
                ws == split_ws(source@),
                j <= m,
                i < words@.len(),
                words@.len() == ws.len(),
                forall|k: int| 0 <= k < ws.len() ==> (#[trigger] words@[k])@ == ws[k],
                word == &words@[i as int],
                m == ws[i as int].len(),
                row@.len() == j,
                forall|t: int, j2: int|
                    0 <= t < i && 0 <= j2 < ws[t].len() ==> !bad_char(#[trigger] ws[t][j2]),
                forall|t: int| 0 <= t < j ==> !bad_char(#[trigger] ws[i as int][t]),
                forall|t: int|
                    0 <= t < j ==> (#[trigger] row@[t]) == cell_of(ws[i as int][t]),
            decreases m - j,
        {
            let c = word.as_str().get_char(j);
            if c == '_' {
                row.push(Cell::Empty);
            } else if c == '#' {
                row.push(Cell::Full);
            } else {
                proof {
                    assert(c == ws[i as int][j as int]);
                }
                return Err(Error::InvalidCharacter { character: c, line: i, position: j });
            }
            j = j + 1;
        }
        board.push(row);
        i = i + 1;
    }
    Ok(board)
}

/// The rectangular board flipped along its diagonal: entry `(y, x)` of the
/// result is entry `(x, y)` of the input.
pub fn transpose(rows: &Vec<Vec<Cell>>) -> (r: Vec<Vec<Cell>>)
    requires
        rows@.len() > 0,
        forall|i: int| 0 <= i < rows@.len() ==> (#[trigger] rows@[i])@.len() == rows@[0]@.len(),
    ensures
        r@.len() == rows@[0]@.len(),
        forall|x: int| 0 <= x < r@.len() ==> (#[trigger] r@[x])@.len() == rows@.len(),
        forall|x: int, y: int|
            0 <= x < r@.len() && 0 <= y < rows@.len() ==> (#[trigger] r@[x]@[y]) == rows@[y]@[x],
{
    let mut columns: Vec<Vec<Cell>> = Vec::new();
    let column_number = rows[0].len();
    let mut x: usize = 0;
    while x < column_number
        invariant
            x <= column_number,
            rows@.len() > 0,
            column_number == rows@[0]@.len(),
            forall|i: int| 0 <= i < rows@.len() ==> (#[trigger] rows@[i])@.len() == column_number,
            columns@.len() == x,
            forall|t: int| 0 <= t < x ==> (#[trigger] columns@[t])@.len() == rows@.len(),
            forall|t: int, y: int|
                0 <= t < x && 0 <= y < rows@.len() ==> (#[trigger] columns@[t]@[y]) == rows@[y]@[t],
        decreases column_number - x,
    {
        let mut column: Vec<Cell> = Vec::new();
        let mut y: usize = 0;
        while y < rows.len()
            invariant
                y <= rows@.len(),
                x < column_number,
                forall|i: int|
                    0 <= i < rows@.len() ==> (#[trigger] rows@[i])@.len() == column_number,
                column@.len() == y,
                forall|t: int| 0 <= t < y ==> (#[trigger] column@[t]) == rows@[t]@[x as int],
            decreases rows@.len() - y,
        {
            column.push(rows[y][x]);
            y = y + 1;
        }
        columns.push(column);
        x = x + 1;
    }
    columns
}

/// `row[start .. start + len]` is a maximal stretch of at least two empty
/// cells: a slot that a word can fill.
pub open spec fn is_run(row: Seq<Cell>, start: int, len: int) -> bool {
    &&& 0 <= start
    &&& start + len <= row.len()
    &&& len >= 2
    &&& forall|t: int| start <= t < start + len ==> row[t] is Empty
    &&& (start == 0 || row[start - 1] is Full)
    &&& (start + len == row.len() || row[start + len] is Full)
}

/// Two stretches of one row that start apart do not meet: maximality forces
/// a full cell between them.
pub proof fn lemma_runs_separated(row: Seq<Cell>, s1: int, l1: int, s2: int, l2: int)
    requires
        is_run(row, s1, l1),
        is_run(row, s2, l2),
        s1 < s2,
    ensures
        s1 + l1 < s2,
{
    if s2 <= s1 + l1 {
        assert(row[s2 - 1] is Full);
        assert(row[s2 - 1] is Empty);
    }
}

/// Two stretches of one row that start together are the same stretch.
pub proof fn lemma_runs_equal(row: Seq<Cell>, s: int, l1: int, l2: int)
    requires
        is_run(row, s, l1),
        is_run(row, s, l2),
    ensures
        l1 == l2,
{
    if l1 < l2 {
        assert(row[s + l1] is Full);
        assert(row[s + l1] is Empty);
    }
    if l2 < l1 {
        assert(row[s + l2] is Full);
        assert(row[s + l2] is Empty);
    }
}

/// The index ranges of the maximal stretches of at least two empty cells of
/// `line`, in order of appearance.
fn get_cells_occupied(line: &Vec<Cell>) -> (r: Vec<Vec<usize>>)
    ensures
        forall|k: int|
            0 <= k < r@.len() ==> {
                let range = (#[trigger] r@[k])@;
                &&& range.len() >= 2
                &&& is_run(line@, range[0] as int, range.len() as int)
                &&& forall|t: int| 0 <= t < range.len() ==> #[trigger] range[t] == range[0] + t
            },
        forall|s: int, l: int|
            is_run(line@, s, l) ==> exists|k: int|
                0 <= k < r@.len() && (#[trigger] r@[k])@[0] == s && r@[k]@.len() == l,
        forall|k1: int, k2: int|
            0 <= k1 < k2 < r@.len() ==> (#[trigger] r@[k1])@[0] < (#[trigger] r@[k2])@[0],
{
    let n = line.len();
    let mut occupied: Vec<Vec<usize>> = Vec::new();
    let mut current_start: usize = 0;
    let mut empties_in_a_row: usize = 0;
    let mut i: usize = 0;
    while i < n
        invariant
            i <= n,
            n == line@.len(),
            empties_in_a_row <= i,
            forall|t: int| i - empties_in_a_row <= t < i ==> line@[t] is Empty,
            i - empties_in_a_row == 0 || line@[i - empties_in_a_row - 1] is Full,
            empties_in_a_row > 0 ==> current_start == i - empties_in_a_row,
            forall|k: int|
                0 <= k < occupied@.len() ==> {
                    let range = (#[trigger] occupied@[k])@;
                    &&& range.len() >= 2
                    &&& is_run(line@, range[0] as int, range.len() as int)
                    &&& range[0] + range.len() < i
                    &&& forall|t: int| 0 <= t < range.len() ==> #[trigger] range[t] == range[0] + t
                },
            forall|s: int, l: int|
                is_run(line@, s, l) && s + l < i ==> exists|k: int|
                    0 <= k < occupied@.len() && (#[trigger] occupied@[k])@[0] == s
                        && occupied@[k]@.len() == l,
            forall|k1: int, k2: int|
                0 <= k1 < k2 < occupied@.len() ==> (#[trigger] occupied@[k1])@[0] < (
                #[trigger] occupied@[k2])@[0],
        decreases n - i,
    {
        let ghost occupied0 = occupied@;
        match line[i] {
            Cell::Empty => {
                if empties_in_a_row == 0 {
                    current_start = i;
                }
                empties_in_a_row = empties_in_a_row + 1;
            },
            Cell::Full => {
                if empties_in_a_row > 1 {
                    let mut range: Vec<usize> = Vec::new();
                    let mut t: usize = current_start;
                    while t < i
                        invariant
                            current_start <= t <= i,
                            range@.len() == t - current_start,
                            forall|u: int|
                                0 <= u < range@.len() ==> (#[trigger] range@[u]) == current_start
                                    + u,
                        decreases i - t,
                    {
                        range.push(t);
                        t = t + 1;
                    }
                    occupied.push(range);
                    proof {
                        assert(is_run(line@, current_start as int, empties_in_a_row as int));
                        assert forall|k: int|
                            0 <= k < occupied0.len() implies (#[trigger] occupied0[k])@[0]
                            < current_start by {
                            let prior = occupied0[k]@;
                            if prior[0] + prior.len() > current_start {
                                assert(line@[prior[0] + prior.len()] is Full);
                                assert(line@[prior[0] + prior.len()] is Empty);
                            }
                        }
                    }
                }
                proof {
                    assert forall|s: int, l: int|
                        is_run(line@, s, l) && s + l < i + 1 implies exists|k: int|
                        0 <= k < occupied@.len() && (#[trigger] occupied@[k])@[0] == s
                            && occupied@[k]@.len() == l by {
                        if s + l == i {
                            assert(line@[i as int] is Full);
                            assert(s == i - empties_in_a_row && l == empties_in_a_row) by {
                                if l < empties_in_a_row {
                                    assert(line@[s - 1] is Empty);
                                } else if l > empties_in_a_row {
                                    assert(line@[i - empties_in_a_row - 1] is Empty);
                                }
                            }
                            let k = occupied@.len() - 1;
                            assert(occupied@[k]@[0] == s && occupied@[k]@.len() == l);
                        } else {
                            assert(exists|k: int|
                                0 <= k < occupied0.len() && (#[trigger] occupied0[k])@[0] == s
                                    && occupied0[k]@.len() == l);
                            let k = choose|k: int|
                                0 <= k < occupied0.len() && (#[trigger] occupied0[k])@[0] == s
                                    && occupied0[k]@.len() == l;
                            assert(occupied@[k]@[0] == s && occupied@[k]@.len() == l);
                        }
                    }
                }
                empties_in_a_row = 0;
            },
        }
        i = i + 1;
    }
    if empties_in_a_row > 1 {
        let ghost occupied0 = occupied@;
        let mut range: Vec<usize> = Vec::new();
        let mut t: usize = current_start;
        while t < n
            invariant
                current_start <= t <= n,
                range@.len() == t - current_start,
                forall|u: int|
                    0 <= u < range@.len() ==> (#[trigger] range@[u]) == current_start + u,
            decreases n - t,
        {
            range.push(t);
            t = t + 1;
        }
        occupied.push(range);
        proof {
            assert(is_run(line@, current_start as int, empties_in_a_row as int));
            assert forall|k: int|
                0 <= k < occupied0.len() implies (#[trigger] occupied0[k])@[0]
                < current_start by {
                let prior = occupied0[k]@;
                if prior[0] + prior.len() > current_start {
                    assert(line@[prior[0] + prior.len()] is Full);
                    assert(line@[prior[0] + prior.len()] is Empty);
                }
            }
            assert forall|s: int, l: int| is_run(line@, s, l) implies exists|k: int|
                0 <= k < occupied@.len() && (#[trigger] occupied@[k])@[0] == s && occupied@[
                k]@.len() == l by {
                if s + l == n {
                    assert(s == n - empties_in_a_row && l == empties_in_a_row) by {
                        if l < empties_in_a_row {
                            assert(line@[s - 1] is Empty);
                        } else if l > empties_in_a_row {
                            assert(line@[n - empties_in_a_row - 1] is Empty);
                        }
                    }
                    let k = occupied@.len() - 1;
                    assert(occupied@[k]@[0] == s && occupied@[k]@.len() == l);
                } else {
                    let k = choose|k: int|
                        0 <= k < occupied0.len() && (#[trigger] occupied0[k])@[0] == s
                            && occupied0[k]@.len() == l;
                    assert(occupied@[k]@[0] == s && occupied@[k]@.len() == l);
                }
            }
        }
    } else {
        proof {
            assert forall|s: int, l: int| is_run(line@, s, l) implies s + l < n by {
                if s + l == n {
                    if empties_in_a_row < l {
                        assert(line@[n - empties_in_a_row - 1] is Empty);
                    }
                }
            }
        }
    }
    occupied
}

/// The position of the line's row (or column, for `Vertical`) in the list of
/// rows handed to `parse_lines`, then its offset there: the order in which
/// `parse_lines` finds lines.
pub open spec fn line_key(ln: Line, axis: Axis) -> (int, int) {
    if axis is Horizontal {
        (ln.start_position.1 as int, ln.start_position.0 as int)
    } else {
        (ln.start_position.0 as int, ln.start_position.1 as int)
    }
}

/// Whether `r` holds the line of `axis` whose row (or column) is `i`,
/// starting at offset `s` with length `l`.
pub open spec fn contains_line(r: Seq<Line>, axis: Axis, i: int, s: int, l: int) -> bool {
    exists|k: int|
        0 <= k < r.len() && {
            let ln = #[trigger] r[k];
            &&& ln.axis == axis
            &&& ln.line_length == l
            &&& if axis is Horizontal {
                ln.start_position == (s as usize, i as usize)
            } else {
                ln.start_position == (i as usize, s as usize)
            }
        }
}

/// One `Line` per maximal stretch of at least two empty cells of each row of
/// `lines` (for `Vertical`, each row is one column of the original board, so
/// positions come out transposed), and nothing else.
pub fn parse_lines(lines: &Vec<Vec<Cell>>, axis: Axis) -> (r: Vec<Line>)
    ensures
        forall|k: int|
            0 <= k < r@.len() ==> {
                let ln = #[trigger] r@[k];
                let i = if axis is Horizontal {
                    ln.start_position.1
                } else {
                    ln.start_position.0
                };
                let s = if axis is Horizontal {
                    ln.start_position.0
                } else {
                    ln.start_position.1
                };
                &&& ln.axis == axis
                &&& i < lines@.len()
                &&& is_run(lines@[i as int]@, s as int, ln.line_length as int)
            },
        forall|i: int, s: int, l: int|
            0 <= i < lines@.len() && #[trigger] is_run(lines@[i]@, s, l) ==> contains_line(
                r@,
                axis,
                i,
                s,
                l,
            ),
        forall|k1: int, k2: int|
            0 <= k1 < k2 < r@.len() ==> ({
                let key1 = line_key(#[trigger] r@[k1], axis);
                let key2 = line_key(#[trigger] r@[k2], axis);
                key1.0 < key2.0 || (key1.0 == key2.0 && key1.1 < key2.1)
            }),
        forall|k1: int, k2: int| 0 <= k1 < k2 < r@.len() ==> (#[trigger] r@[k1]) != (#[trigger] r@[k2]),
{
    let mut rows: Vec<Line> = Vec::new();
    let mut i: usize = 0;
    while i < lines.len()
        invariant
            i <= lines@.len(),
            forall|k: int|
                0 <= k < rows@.len() ==> {
                    let ln = #[trigger] rows@[k];
                    let t = if axis is Horizontal {
                        ln.start_position.1
                    } else {
                        ln.start_position.0
                    };
                    let s = if axis is Horizontal {
                        ln.start_position.0
                    } else {
                        ln.start_position.1
                    };
                    &&& ln.axis == axis
                    &&& t < lines@.len()
                    &&& is_run(lines@[t as int]@, s as int, ln.line_length as int)
                },
            forall|t: int, s: int, l: int|
                0 <= t < i && #[trigger] is_run(lines@[t]@, s, l) ==> contains_line(
                    rows@,
                    axis,
                    t,
                    s,
                    l,
                ),
            forall|u: int| 0 <= u < rows@.len() ==> line_key(#[trigger] rows@[u], axis).0 < i,
            forall|k1: int, k2: int|
                0 <= k1 < k2 < rows@.len() ==> ({
                    let key1 = line_key(#[trigger] rows@[k1], axis);
                    let key2 = line_key(#[trigger] rows@[k2], axis);
                    key1.0 < key2.0 || (key1.0 == key2.0 && key1.1 < key2.1)
                }),
        decreases lines@.len() - i,
    {
        let board_row = &lines[i];
        let columns_occupied = get_cells_occupied(board_row);
        let mut k: usize = 0;
        while k < columns_occupied.len()
            invariant
                i < lines@.len(),
                k <= columns_occupied@.len(),
                board_row == &lines@[i as int],
                forall|u: int|
                    0 <= u < columns_occupied@.len() ==> {
                        let range = (#[trigger] columns_occupied@[u])@;
                        &&& range.len() >= 2
                        &&& is_run(board_row@, range[0] as int, range.len() as int)
                        &&& forall|t: int| 0 <= t < range.len() ==> #[trigger] range[t] == range[0] + t
                    },
                forall|s: int, l: int|
                    is_run(board_row@, s, l) ==> exists|u: int|
                        0 <= u < columns_occupied@.len() && (#[trigger] columns_occupied@[u])@[0]
                            == s && columns_occupied@[u]@.len() == l,
                forall|u: int|
                    0 <= u < rows@.len() ==> {
                        let ln = #[trigger] rows@[u];
                        let t = if axis is Horizontal {
                            ln.start_position.1
                        } else {
                            ln.start_position.0
                        };
                        let s = if axis is Horizontal {
                            ln.start_position.0
                        } else {
                            ln.start_position.1
                        };
                        &&& ln.axis == axis
                        &&& t < lines@.len()
                        &&& is_run(lines@[t as int]@, s as int, ln.line_length as int)
                    },
                forall|t: int, s: int, l: int|
                    0 <= t < i && #[trigger] is_run(lines@[t]@, s, l) ==> contains_line(
                        rows@,
                        axis,
                        t,
                        s,
                        l,
                    ),
                forall|u: int|
                    0 <= u < k ==> {
                        let range = (#[trigger] columns_occupied@[u])@;
                        contains_line(rows@, axis, i as int, range[0] as int, range.len() as int)
                    },
                forall|k1: int, k2: int|
                    0 <= k1 < k2 < columns_occupied@.len() ==> (#[trigger] columns_occupied@[
                    k1])@[0] < (#[trigger] columns_occupied@[k2])@[0],
                forall|u: int|
                    0 <= u < rows@.len() ==> ({
                        let key = line_key(#[trigger] rows@[u], axis);
                        key.0 < i || (key.0 == i && (k >= columns_occupied@.len() || key.1
                            < columns_occupied@[k as int]@[0]))
                    }),
                forall|k1: int, k2: int|
                    0 <= k1 < k2 < rows@.len() ==> ({
                        let key1 = line_key(#[trigger] rows@[k1], axis);
                        let key2 = line_key(#[trigger] rows@[k2], axis);
                        key1.0 < key2.0 || (key1.0 == key2.0 && key1.1 < key2.1)
                    }),
        decreases columns_occupied@.len() - k,
        {
            let ghost rows0 = rows@;
            let range = &columns_occupied[k];
            let start = range[0];
            let row = Line {
                start_position: match axis {
                    Axis::Horizontal => (start, i),
                    Axis::Vertical => (i, start),
                },
                axis,
                line_length: range.len(),
            };
            rows.push(row);
            proof {
                assert forall|t: int, s: int, l: int|
                    0 <= t < i && #[trigger] is_run(lines@[t]@, s, l) implies contains_line(
                    rows@,
                    axis,
                    t,
                    s,
                    l,
                ) by {
                    let u = choose|u: int|
                        0 <= u < rows0.len() && {
                            let ln = #[trigger] rows0[u];
                            &&& ln.axis == axis
                            &&& ln.line_length == l
                            &&& if axis is Horizontal {
                                ln.start_position == (s as usize, t as usize)
                            } else {
                                ln.start_position == (t as usize, s as usize)
                            }
                        };
                    assert(rows@[u] == rows0[u]);
                }
                assert forall|u: int| 0 <= u < k + 1 implies {
                    let range2 = (#[trigger] columns_occupied@[u])@;
                    contains_line(rows@, axis, i as int, range2[0] as int, range2.len() as int)
                } by {
                    if u < k {
                        let range2 = columns_occupied@[u]@;
                        let w = choose|w: int|
                            0 <= w < rows0.len() && {
                                let ln = #[trigger] rows0[w];
                                &&& ln.axis == axis
                                &&& ln.line_length == range2.len()
                                &&& if axis is Horizontal {
                                    ln.start_position == (range2[0] as usize, i as usize)
                                } else {
                                    ln.start_position == (i as usize, range2[0] as usize)
                                }
                            };
                        assert(rows@[w] == rows0[w]);
                    } else {
                        assert(rows@[rows0.len() as int] == row);
                    }
                }
            }
            k = k + 1;
        }
        proof {
            assert forall|t: int, s: int, l: int|
                0 <= t < i + 1 && #[trigger] is_run(lines@[t]@, s, l) implies contains_line(
                rows@,
                axis,
                t,
                s,
                l,
            ) by {
                if t == i {
                    let u = choose|u: int|
                        0 <= u < columns_occupied@.len() && (#[trigger] columns_occupied@[u])@[0]
                            == s && columns_occupied@[u]@.len() == l;
                    assert(contains_line(
                        rows@,
                        axis,
                        i as int,
                        columns_occupied@[u]@[0] as int,
                        columns_occupied@[u]@.len() as int,
                    ));
                }
            }
        }
        i = i + 1;
    }
    rows
}

} // verus!
