use vstd::prelude::*;

use crate::csp::{agrees, csp_wf, is_solution, lift, pair_assignment, Constraint, Solution, CSP};
use crate::jolka_parser::{contains_line, is_run, parse_lines, transpose};
use crate::solvers::clone_values;

verus! {

/// One square of the crossword board: open for a letter, or blocked.
#[derive(Copy, Clone, PartialEq, Eq, Structural, Debug)]
pub enum Cell {
    Empty,
    Full,
}

/// The direction a line of the crossword runs in.
#[derive(Eq, PartialEq, Structural, Hash, Copy, Clone, Ord, PartialOrd, Debug)]
pub enum Axis {
    Horizontal,
    Vertical,
}

/// One word slot of the crossword: where it starts, which way it runs, and
/// how many letters it takes.
#[derive(Eq, PartialEq, Hash, Copy, Clone, Ord, PartialOrd, Debug)]
pub struct Line {
    pub start_position: (usize, usize),
    pub axis: Axis,
    pub line_length: usize,
}

/// Whether the line runs through board position `(x, y)`.
pub open spec fn line_covers(ln: Line, x: int, y: int) -> bool {
    if ln.axis is Horizontal {
        y == ln.start_position.1 && ln.start_position.0 <= x < ln.start_position.0
            + ln.line_length
    } else {
        x == ln.start_position.0 && ln.start_position.1 <= y < ln.start_position.1
            + ln.line_length
    }
}

/// Which letter of the line's word falls on board position `(x, y)`.
pub open spec fn line_offset(ln: Line, x: int, y: int) -> int {
    if ln.axis is Horizontal {
        x - ln.start_position.0
    } else {
        y - ln.start_position.1
    }
}

/// The line stays within a board of `height` rows and `width` columns.
pub open spec fn line_in_board(ln: Line, height: int, width: int) -> bool {
    if ln.axis is Horizontal {
        ln.start_position.1 < height && ln.start_position.0 + ln.line_length <= width
    } else {
        ln.start_position.0 < width && ln.start_position.1 + ln.line_length <= height
    }
}

/// The indices of the words whose length is `len`, in order: the candidate
/// values of a line of that length.
pub open spec fn word_domain(words: Seq<Vec<char>>, len: int) -> Seq<u64>
    decreases words.len(),
{
    if words.len() == 0 {
        Seq::empty()
    } else {
        let rest = word_domain(words.drop_last(), len);
        if words.last()@.len() == len {
            rest.push((words.len() - 1) as u64)
        } else {
            rest
        }
    }
}

pub proof fn lemma_word_domain_members(words: Seq<Vec<char>>, len: int)
    requires
        words.len() <= u64::MAX,
    ensures
        forall|k: int|
            0 <= k < word_domain(words, len).len() ==> (#[trigger] word_domain(words, len)[k])
                < words.len() && words[word_domain(words, len)[k] as int]@.len() == len,
        forall|wi: u64|
            wi < words.len() && words[wi as int]@.len() == len ==> #[trigger] word_domain(
                words,
                len,
            ).contains(wi),
        word_domain(words, len).no_duplicates(),
    decreases words.len(),
{
    if words.len() > 0 {
        lemma_word_domain_members(words.drop_last(), len);
        let rest = word_domain(words.drop_last(), len);
        let out = word_domain(words, len);
        assert forall|k: int|
            0 <= k < out.len() implies (#[trigger] out[k]) < words.len() && words[
            out[k] as int]@.len() == len by {
            if k < rest.len() {
                assert(out[k] == rest[k]);
                assert(words.drop_last()[rest[k] as int]@.len() == len);
            }
        }
        assert forall|wi: u64|
            wi < words.len() && words[wi as int]@.len() == len implies #[trigger] out.contains(
            wi) by {
            if wi + 1 < words.len() {
                assert(words.drop_last()[wi as int]@.len() == len);
                assert(rest.contains(wi));
                let k = choose|k: int| 0 <= k < rest.len() && rest[k] == wi;
                assert(out[k] == wi);
            } else {
                assert(out.last() == wi);
            }
        }
        assert forall|k1: int, k2: int| 0 <= k1 < k2 < out.len() implies out[k1] != out[k2] by {
            if k2 < rest.len() {
                assert(rest[k1] != rest[k2]);
            } else {
                assert(out[k1] == rest[k1]);
                assert(rest[k1] < words.len() - 1);
            }
        }
    }
}

/// The index list of the words of length `len`, as `word_domain` gives it.
fn word_indices_of_length(words: &Vec<Vec<char>>, len: usize) -> (r: Vec<u64>)
    ensures
        r@ == word_domain(words@, len as int),
{
    let mut r: Vec<u64> = Vec::new();
    let mut i: usize = 0;
    while i < words.len()
        invariant
            i <= words@.len(),
            r@ == word_domain(words@.take(i as int), len as int),
        decreases words@.len() - i,
    {
        proof {
            assert(words@.take(i + 1).drop_last() =~= words@.take(i as int));
        }
        if words[i].len() == len {
            r.push(i as u64);
        }
        i = i + 1;
    }
    proof {
        assert(words@.take(words@.len() as int) =~= words@);
    }
    r
}

/// The crossing of a row line and a column line: both words must put the same
/// letter on the shared square.  The constraint carries the word table that
/// its candidate values index into.
#[derive(Clone, Debug)]
pub struct Intersection {
    pub row: usize,
    pub column: usize,
    pub row_char_index: usize,
    pub column_char_index: usize,
    pub words: Vec<Vec<char>>,
}

impl Intersection {
    /// Words `wi` (on the row) and `wj` (on the column) exist, reach the
    /// crossing, and agree on its letter.
    pub open spec fn chars_match(&self, wi: u64, wj: u64) -> bool {
        &&& wi < self.words@.len()
        &&& wj < self.words@.len()
        &&& self.row_char_index < self.words@[wi as int]@.len()
        &&& self.column_char_index < self.words@[wj as int]@.len()
        &&& self.words@[wi as int]@[self.row_char_index as int] == self.words@[wj as int]@[
            self.column_char_index as int
        ]
    }

    fn check_chars(&self, wi: u64, wj: u64) -> (r: bool)
        ensures
            r == self.chars_match(wi, wj),
    {
        if !(wi < self.words.len() as u64 && wj < self.words.len() as u64) {
            return false;
        }
        let word_i = &self.words[wi as usize];
        let word_j = &self.words[wj as usize];
        if !(self.row_char_index < word_i.len() && self.column_char_index < word_j.len()) {
            return false;
        }
        word_i[self.row_char_index] == word_j[self.column_char_index]
    }
}

impl Constraint for Intersection {
    open spec fn valid(&self, n: nat) -> bool {
        &&& self.row < n
        &&& self.column < n
        &&& self.row != self.column
    }

    open spec fn sat(&self, a: Seq<Option<u64>>) -> bool {
        if a[self.row as int] is Some && a[self.column as int] is Some {
            self.chars_match(a[self.row as int]->0, a[self.column as int]->0)
        } else {
            true
        }
    }

    fn is_satisfied(&self, env: &Vec<Option<u64>>) -> (r: bool) {
        match (env[self.row], env[self.column]) {
            (Some(wi), Some(wj)) => self.check_chars(wi, wj),
            _ => true,
        }
    }

    fn prune(&self, domains: &mut Vec<Vec<u64>>, variable: usize, value: u64) {
        let ghost n = domains@.len();
        let other: usize;
        let row_fixed: bool;
        if variable == self.row {
            other = self.column;
            row_fixed = true;
        } else if variable == self.column {
            other = self.row;
            row_fixed = false;
        } else {
            proof {
                assert forall|w: int, y: u64| 0 <= w < n && w != variable implies ((
                #[trigger] domains@[w]@.contains(y)) <==> (domains@[w]@.contains(y) && self.sat(
                    pair_assignment(n as nat, variable as int, value, w, y),
                ))) by {
                    let pa = pair_assignment(n as nat, variable as int, value, w, y);
                    assert(pa[self.row as int] is Some ==> self.row == w);
                    assert(pa[self.column as int] is Some ==> self.column == w);
                }
            }
            return ;
        }
        let dom = clone_values(&domains[other]);
        let mut kept: Vec<u64> = Vec::new();
        let mut idx: usize = 0;
        while idx < dom.len()
            invariant
                idx <= dom@.len(),
                row_fixed ==> (variable == self.row && other == self.column),
                !row_fixed ==> (variable == self.column && other == self.row),
                forall|y: u64|
                    (#[trigger] kept@.contains(y)) <==> (dom@.take(idx as int).contains(y) && (
                    if row_fixed {
                        self.chars_match(value, y)
                    } else {
                        self.chars_match(y, value)
                    })),
                dom@.no_duplicates() ==> kept@.no_duplicates(),
            decreases dom@.len() - idx,
        {
            let ghost kept0 = kept@;
            let y = dom[idx];
            proof {
                assert(dom@.take(idx + 1) =~= dom@.take(idx as int).push(dom@[idx as int]));
            }
            let keep = if row_fixed {
                self.check_chars(value, y)
            } else {
                self.check_chars(y, value)
            };
            if keep {
                proof {
                    if dom@.no_duplicates() && kept@.contains(y) {
                        assert(dom@.take(idx as int).contains(y));
                        let t = choose|t: int| 0 <= t < idx && dom@.take(idx as int)[t] == y;
                        assert(dom@[t] == dom@[idx as int]);
                    }
                }
                kept.push(y);
            }
            proof {
                assert forall|z: u64| #[trigger] kept@.contains(z) implies (dom@.take(
                    idx + 1,
                ).contains(z) && (if row_fixed {
                    self.chars_match(value, z)
                } else {
                    self.chars_match(z, value)
                })) by {
                    if kept0.contains(z) {
                        let t = choose|t: int| 0 <= t < idx && dom@.take(idx as int)[t] == z;
                        assert(dom@.take(idx + 1)[t] == z);
                    } else {
                        assert(z == y);
                        assert(dom@.take(idx + 1)[idx as int] == y);
                    }
                }
                assert forall|z: u64|
                    dom@.take(idx + 1).contains(z) && (if row_fixed {
                        self.chars_match(value, z)
                    } else {
                        self.chars_match(z, value)
                    }) implies #[trigger] kept@.contains(z) by {
                    let t = choose|t: int|
                        0 <= t < idx + 1 && #[trigger] dom@.take(idx + 1)[t] == z;
                    if t < idx {
                        assert(dom@.take(idx as int)[t] == z);
                        assert(kept0.contains(z));
                        let u = choose|u: int| 0 <= u < kept0.len() && kept0[u] == z;
                        assert(kept@[u] == z);
                    } else {
                        assert(z == y);
                        assert(keep);
                        assert(kept@[kept0.len() as int] == y);
                    }
                }
            }
            idx = idx + 1;
        }
        proof {
            assert(dom@.take(dom@.len() as int) =~= dom@);
        }
        domains[other] = kept;
        proof {
            assert forall|w: int, y: u64| 0 <= w < n && w != variable implies ((
            #[trigger] domains@[w]@.contains(y)) <==> (old(domains)@[w]@.contains(y) && self.sat(
                pair_assignment(n as nat, variable as int, value, w, y),
            ))) by {
                let pa = pair_assignment(n as nat, variable as int, value, w, y);
                if w == other {
                    assert(pa[variable as int] == Some(value));
                    assert(pa[other as int] == Some(y));
                    if row_fixed {
                        assert(self.sat(pa) <==> self.chars_match(value, y));
                    } else {
                        assert(self.sat(pa) <==> self.chars_match(y, value));
                    }
                } else {
                    assert(pa[self.row as int] is Some ==> self.row == variable || self.row == w);
                    assert(pa[self.column as int] is Some ==> self.column == variable
                        || self.column == w);
                    assert(self.sat(pa));
                }
            }
        }
    }

    proof fn lemma_sat_extends(&self, a: Seq<Option<u64>>, b: Seq<Option<u64>>) {
    }

    proof fn lemma_pair_split(&self, p: Seq<Option<u64>>, v: int, x: u64, w: int, y: u64) {
        let q1 = p.update(v, Some(x)).update(w, Some(y));
        let q2 = p.update(w, Some(y));
        let pa = pair_assignment(p.len() as nat, v, x, w, y);
        assert(q1[self.row as int] == if self.row == w {
            Some(y)
        } else if self.row == v {
            Some(x)
        } else {
            p[self.row as int]
        });
        assert(q1[self.column as int] == if self.column == w {
            Some(y)
        } else if self.column == v {
            Some(x)
        } else {
            p[self.column as int]
        });
        assert(pa[self.row as int] == if self.row == v {
            Some(x)
        } else if self.row == w {
            Some(y)
        } else {
            None::<u64>
        });
        assert(pa[self.column as int] == if self.column == v {
            Some(x)
        } else if self.column == w {
            Some(y)
        } else {
            None::<u64>
        });
    }
}

fn word_chars(s: &str) -> (r: Vec<char>)
    ensures
        r@ == s@,
{
    let n = s.unicode_len();
    let mut r: Vec<char> = Vec::new();
    let mut i: usize = 0;
    while i < n
        invariant
            i <= n,
            n == s@.len(),
            r@ == s@.take(i as int),
        decreases n - i,
    {
        r.push(s.get_char(i));
        proof {
            assert(s@.take(i + 1) =~= s@.take(i as int).push(s@[i as int]));
        }
        i = i + 1;
    }
    proof {
        assert(s@.take(n as int) =~= s@);
    }
    r
}

fn set_row_mark(grid: &mut Vec<Vec<Option<usize>>>, x: usize, y: usize, k: usize)
    requires
        y < old(grid)@.len(),
        x < old(grid)@[y as int]@.len(),
    ensures
        final(grid)@.len() == old(grid)@.len(),
        forall|t: int| 0 <= t < old(grid)@.len() && t != y ==> final(grid)@[t] == old(grid)@[t],
        final(grid)@[y as int]@ == old(grid)@[y as int]@.update(x as int, Some(k)),
{
    let mut row: Vec<Option<usize>> = Vec::new();
    let m = grid[y].len();
    let mut j: usize = 0;
    while j < m
        invariant
            j <= m,
            y < grid@.len(),
            m == grid@[y as int]@.len(),
            row@ == grid@[y as int]@.take(j as int),
        decreases m - j,
    {
        row.push(grid[y][j]);
        proof {
            assert(grid@[y as int]@.take(j + 1) =~= grid@[y as int]@.take(j as int).push(
                grid@[y as int]@[j as int],
            ));
        }
        j = j + 1;
    }
    proof {
        assert(grid@[y as int]@.take(m as int) =~= grid@[y as int]@);
    }
    row[x] = Some(k);
    grid[y] = row;
}

/// The crossword puzzle: the board, its word slots by axis, and the list of
/// candidate words.  A slot's candidate values are the indices of the words
/// of its exact length; one `Intersection` constraint guards each square
/// where a row slot and a column slot cross.
pub struct Jolka {
    board: Vec<Vec<Cell>>,
    rows: Vec<Line>,
    columns: Vec<Line>,
    words: Vec<Vec<char>>,
    constraints: Vec<Intersection>,
}

impl Jolka {
    /// The board, row by row.
    pub closed spec fn spec_board(&self) -> Seq<Vec<Cell>> {
        self.board@
    }

    /// The words, as character sequences.
    pub closed spec fn spec_words(&self) -> Seq<Vec<char>> {
        self.words@
    }

    /// The horizontal word slots.
    pub closed spec fn spec_rows(&self) -> Seq<Line> {
        self.rows@
    }

    /// The vertical word slots.
    pub closed spec fn spec_columns(&self) -> Seq<Line> {
        self.columns@
    }

    /// All word slots: the variables of the puzzle, rows first.
    pub open spec fn spec_lines(&self) -> Seq<Line> {
        self.spec_rows() + self.spec_columns()
    }

    /// The number of columns of the board.
    pub open spec fn spec_width(&self) -> int {
        self.spec_board()[0]@.len() as int
    }

    #[verifier::type_invariant]
    spec fn jolka_inv(&self) -> bool {
        &&& self.board@.len() > 0
        &&& forall|i: int|
            0 <= i < self.board@.len() ==> (#[trigger] self.board@[i])@.len() == self.spec_width()
        &&& self.rows@.len() + self.columns@.len() <= usize::MAX
        &&& forall|k: int|
            0 <= k < self.spec_lines().len() ==> line_in_board(
                #[trigger] self.spec_lines()[k],
                self.board@.len() as int,
                self.spec_width(),
            )
        &&& crate::csp::all_valid(self.constraints@, self.spec_lines().len() as nat)
        &&& forall|k: int|
            0 <= k < self.rows@.len() ==> ((#[trigger] self.rows@[k]).axis == Axis::Horizontal
                && self.rows@[k].start_position.1 < self.board@.len() && is_run(
                self.board@[self.rows@[k].start_position.1 as int]@,
                self.rows@[k].start_position.0 as int,
                self.rows@[k].line_length as int,
            ))
        &&& forall|k1: int, k2: int|
            0 <= k1 < k2 < self.rows@.len() ==> (#[trigger] self.rows@[k1]) != (
            #[trigger] self.rows@[k2])
        &&& forall|k: int|
            0 <= k < self.columns@.len() ==> ((#[trigger] self.columns@[k]).axis == Axis::Vertical
                && self.columns@[k].start_position.0 < self.spec_width() && is_run(
                column_of(self.board@, self.columns@[k].start_position.0 as int),
                self.columns@[k].start_position.1 as int,
                self.columns@[k].line_length as int,
            ))
        &&& forall|k1: int, k2: int|
            0 <= k1 < k2 < self.columns@.len() ==> (#[trigger] self.columns@[k1]) != (
            #[trigger] self.columns@[k2])
        &&& forall|t: int|
            0 <= t < self.constraints@.len() ==> is_crossing_constraint(
                self.rows@,
                self.columns@,
                self.words@,
                #[trigger] self.constraints@[t],
            )
        &&& forall|kr: int, kc: int|
            0 <= kr < self.rows@.len() && 0 <= kc < self.columns@.len() && crosses(
                #[trigger] self.rows@[kr],
                #[trigger] self.columns@[kc],
            ) ==> exists|t: int|
                0 <= t < self.constraints@.len() && (#[trigger] self.constraints@[t]).column
                    == self.rows@.len() + kc && line_covers(
                    self.rows@[self.constraints@[t].row as int],
                    self.columns@[kc].start_position.0 as int,
                    self.rows@[kr].start_position.1 as int,
                )
    }

    /// Each constraint guards a genuine crossing, over this puzzle's own word
    /// table; and every square where a row slot and a column slot cross is
    /// guarded by a constraint of that column (through whichever row slot
    /// runs over the square).
    pub fn constraint_characterization(&self)
        ensures
            forall|t: int|
                0 <= t < self.spec_constraints().len() ==> is_crossing_constraint(
                    self.spec_rows(),
                    self.spec_columns(),
                    self.spec_words(),
                    #[trigger] self.spec_constraints()[t],
                ),
            forall|kr: int, kc: int|
                0 <= kr < self.spec_rows().len() && 0 <= kc < self.spec_columns().len() && crosses(
                    #[trigger] self.spec_rows()[kr],
                    #[trigger] self.spec_columns()[kc],
                ) ==> exists|t: int|
                    0 <= t < self.spec_constraints().len() && (
                    #[trigger] self.spec_constraints()[t]).column == self.spec_rows().len() + kc
                        && line_covers(
                        self.spec_rows()[self.spec_constraints()[t].row as int],
                        self.spec_columns()[kc].start_position.0 as int,
                        self.spec_rows()[kr].start_position.1 as int,
                    ),
    {
        proof {
            use_type_invariant(self);
            assert forall|kr: int, kc: int|
                0 <= kr < self.spec_rows().len() && 0 <= kc < self.spec_columns().len() && crosses(
                    #[trigger] self.spec_rows()[kr],
                    #[trigger] self.spec_columns()[kc],
                ) implies exists|t: int|
                0 <= t < self.spec_constraints().len() && (
                #[trigger] self.spec_constraints()[t]).column == self.spec_rows().len() + kc
                    && line_covers(
                    self.spec_rows()[self.spec_constraints()[t].row as int],
                    self.spec_columns()[kc].start_position.0 as int,
                    self.spec_rows()[kr].start_position.1 as int,
                ) by {
                assert(crosses(self.rows@[kr], self.columns@[kc]));
                let t = choose|t: int|
                    0 <= t < self.constraints@.len() && (#[trigger] self.constraints@[t]).column
                        == self.rows@.len() + kc && line_covers(
                        self.rows@[self.constraints@[t].row as int],
                        self.columns@[kc].start_position.0 as int,
                        self.rows@[kr].start_position.1 as int,
                    );
                assert(0 <= t < self.spec_constraints().len() && (
                #[trigger] self.spec_constraints()[t]).column == self.spec_rows().len() + kc
                    && line_covers(
                    self.spec_rows()[self.spec_constraints()[t].row as int],
                    self.spec_columns()[kc].start_position.0 as int,
                    self.spec_rows()[kr].start_position.1 as int,
                ));
            }
        }
    }

    /// The shape of the puzzle as a constraint problem: one variable per
    /// slot, candidate values the indices of the words of the slot's length,
    /// nothing pre-assigned — a well-formed problem.
    pub fn well_formed(&self)
        ensures
            self.spec_lines() == self.spec_rows() + self.spec_columns(),
            self.spec_domains().len() == self.spec_lines().len(),
            forall|k: int|
                0 <= k < self.spec_lines().len() ==> self.spec_domains()[k] == word_domain(
                    self.spec_words(),
                    (#[trigger] self.spec_lines()[k]).line_length as int,
                ),
            self.spec_initial() =~= Seq::new(self.spec_lines().len(), |k: int| None::<u64>),
            csp_wf(self),
    {
        let n_words = self.words.len();
        proof {
            assert(n_words == self.spec_words().len());
            use_type_invariant(self);
            assert forall|i: int|
                0 <= i < self.spec_domains().len() implies (
            #[trigger] self.spec_domains()[i]).no_duplicates() by {
                lemma_word_domain_members(self.words@, self.spec_lines()[i].line_length as int);
            }
        }
    }

    /// What the solver's exact contract means here: the solutions of this
    /// puzzle are exactly the proper fillings — every slot gets a word of its
    /// own length, and the two words crossing at any shared square agree on
    /// its letter.
    pub fn solution_characterization(&self)
        ensures
            forall|env: Seq<u64>|
                #[trigger] is_solution(self, env) <==> jolka_filling_ok(
                    self.spec_rows(),
                    self.spec_columns(),
                    self.spec_words(),
                    env,
                ),
    {
        let n_words = self.words.len();
        proof {
            use_type_invariant(self);
            assert(n_words == self.spec_words().len());
            assert forall|env: Seq<u64>|
                jolka_filling_ok(
                    self.spec_rows(),
                    self.spec_columns(),
                    self.spec_words(),
                    env,
                ) implies #[trigger] is_solution(self, env) by {
                assert forall|i: int|
                    0 <= i < env.len() implies (#[trigger] self.spec_domains()[i]).contains(
                    env[i]) by {
                    lemma_word_domain_members(
                        self.words@,
                        self.spec_lines()[i].line_length as int,
                    );
                    assert(env[i] < self.words@.len() && self.words@[env[i] as int]@.len()
                        == self.spec_lines()[i].line_length);
                }
                assert(agrees(env, self.spec_initial()));
                assert forall|t: int|
                    0 <= t < self.spec_constraints().len() implies (
                #[trigger] self.spec_constraints()[t]).sat(lift(env)) by {
                    let c = self.constraints@[t];
                    assert(is_crossing_constraint(self.rows@, self.columns@, self.words@, c));
                    let kr = c.row as int;
                    let kc = c.column - self.rows@.len();
                    assert(crosses(self.rows@[kr], self.columns@[kc]));
                    assert(self.spec_words()[env[kr] as int]@[self.columns@[
                        kc].start_position.0 - self.rows@[kr].start_position.0] == self.spec_words()[
                        env[self.rows@.len() + kc] as int]@[self.rows@[kr].start_position.1
                        - self.columns@[kc].start_position.1]);
                    assert((self.spec_rows() + self.spec_columns())[kr] == self.rows@[kr]);
                    assert((self.spec_rows() + self.spec_columns())[self.rows@.len() + kc]
                        == self.columns@[kc]);
                    assert(c.chars_match(env[kr], env[c.column as int]));
                    assert(lift(env)[kr] == Some(env[kr]));
                    assert(lift(env)[c.column as int] == Some(env[c.column as int]));
                }
                assert(is_solution(self, env));
            }
            assert forall|env: Seq<u64>| #[trigger] is_solution(self, env) implies jolka_filling_ok(
                self.spec_rows(),
                self.spec_columns(),
                self.spec_words(),
                env,
            ) by {
                assert forall|k: int|
                    0 <= k < env.len() implies (#[trigger] env[k]) < self.spec_words().len()
                    && self.spec_words()[env[k] as int]@.len() == (self.spec_rows()
                    + self.spec_columns())[k].line_length by {
                    assert(self.spec_domains()[k].contains(env[k]));
                    lemma_word_domain_members(
                        self.words@,
                        self.spec_lines()[k].line_length as int,
                    );
                }
                assert forall|kr: int, kc: int|
                    0 <= kr < self.spec_rows().len() && 0 <= kc < self.spec_columns().len()
                        && crosses(
                        #[trigger] self.spec_rows()[kr],
                        #[trigger] self.spec_columns()[kc],
                    ) implies self.spec_words()[env[kr] as int]@[self.spec_columns()[
                    kc].start_position.0 - self.spec_rows()[kr].start_position.0]
                    == self.spec_words()[env[self.spec_rows().len() + kc] as int]@[
                    self.spec_rows()[kr].start_position.1 - self.spec_columns()[
                    kc].start_position.1] by {
                    assert(crosses(self.rows@[kr], self.columns@[kc]));
                    let t = choose|t: int|
                        0 <= t < self.constraints@.len() && (
                        #[trigger] self.constraints@[t]).column == self.rows@.len() + kc
                            && line_covers(
                            self.rows@[self.constraints@[t].row as int],
                            self.columns@[kc].start_position.0 as int,
                            self.rows@[kr].start_position.1 as int,
                        );
                    let c = self.constraints@[t];
                    let row2 = c.row as int;
                    let cx = self.columns@[kc].start_position.0 as int;
                    let y0 = self.rows@[kr].start_position.1 as int;
                    assert(is_crossing_constraint(self.rows@, self.columns@, self.words@, c));
                    assert(line_covers(self.rows@[kr], cx, y0));
                    // both slots run over the crossing square, so they are the
                    // same stretch of the same board row, hence the same slot
                    assert(row2 == kr) by {
                        assert(self.rows@[row2].start_position.1 == y0);
                        let s1 = self.rows@[kr].start_position.0 as int;
                        let s2 = self.rows@[row2].start_position.0 as int;
                        let l1 = self.rows@[kr].line_length as int;
                        let l2 = self.rows@[row2].line_length as int;
                        if s1 < s2 {
                            crate::jolka_parser::lemma_runs_separated(
                                self.board@[y0]@,
                                s1,
                                l1,
                                s2,
                                l2,
                            );
                        } else if s2 < s1 {
                            crate::jolka_parser::lemma_runs_separated(
                                self.board@[y0]@,
                                s2,
                                l2,
                                s1,
                                l1,
                            );
                        } else {
                            crate::jolka_parser::lemma_runs_equal(self.board@[y0]@, s1, l1, l2);
                            assert(self.rows@[kr] == self.rows@[row2]);
                            if row2 != kr {
                                assert(false);
                            }
                        }
                    }
                    assert(c.column as int == self.rows@.len() + kc);
                    assert(crosses(self.rows@[kr], self.columns@[c.column - self.rows@.len()]));
                    assert(self.spec_constraints()[t].sat(lift(env)));
                    assert(lift(env)[kr] == Some(env[kr]));
                    assert(lift(env)[c.column as int] == Some(env[c.column as int]));
                    assert(c.chars_match(env[kr], env[c.column as int]));
                    assert(c.row_char_index == cx - self.rows@[kr].start_position.0);
                    assert(c.column_char_index == y0 - self.columns@[kc].start_position.1);
                    assert(c.words@[env[kr] as int]@ == self.words@[env[kr] as int]@);
                    assert(c.words@[env[c.column as int] as int]@ == self.words@[env[
                        c.column as int] as int]@);
                }
            }
        }
    }

    /// The puzzle built from a parsed board and word list, or `None` when the
    /// board is empty or not rectangular (or its slot count does not fit the
    /// machine).  The board is kept as given; the word slots are exactly the
    /// maximal stretches of at least two empty cells, horizontal and
    /// vertical.
    #[verifier::rlimit(100)]
    #[verifier::spinoff_prover]
    pub fn new(board: Vec<Vec<Cell>>, word_list: Vec<String>) -> (r: Option<Jolka>)
        ensures
            !(board@.len() > 0 && (forall|i: int|
                0 <= i < board@.len() ==> (#[trigger] board@[i])@.len() == board@[0]@.len()))
                ==> r is None,
            r matches Some(j) ==> {
                &&& j.spec_board() == board@
                &&& j.spec_words().len() == word_list@.len()
                &&& forall|w: int|
                    0 <= w < word_list@.len() ==> (#[trigger] j.spec_words()[w])@ == word_list@[w]@
                &&& forall|k: int|
                    0 <= k < j.spec_rows().len() ==> {
                        let ln = #[trigger] j.spec_rows()[k];
                        &&& ln.axis == Axis::Horizontal
                        &&& ln.start_position.1 < board@.len()
                        &&& is_run(
                            board@[ln.start_position.1 as int]@,
                            ln.start_position.0 as int,
                            ln.line_length as int,
                        )
                    }
                &&& forall|i: int, s: int, l: int|
                    0 <= i < board@.len() && #[trigger] is_run(board@[i]@, s, l) ==> contains_line(
                        j.spec_rows(),
                        Axis::Horizontal,
                        i,
                        s,
                        l,
                    )
                &&& forall|k: int|
                    0 <= k < j.spec_columns().len() ==> {
                        let ln = #[trigger] j.spec_columns()[k];
                        &&& ln.axis == Axis::Vertical
                        &&& ln.start_position.0 < board@[0]@.len()
                        &&& is_run(
                            column_of(board@, ln.start_position.0 as int),
                            ln.start_position.1 as int,
                            ln.line_length as int,
                        )
                    }
                &&& forall|x: int, s: int, l: int|
                    0 <= x < board@[0]@.len() && #[trigger] is_run(column_of(board@, x), s, l)
                        ==> contains_line(j.spec_columns(), Axis::Vertical, x, s, l)
            },
    {
        if board.len() == 0 {
            return None;
        }
        let width = board[0].len();
        let mut i: usize = 1;
        while i < board.len()
            invariant
                1 <= i <= board@.len(),
                width == board@[0]@.len(),
                forall|t: int| 0 <= t < i ==> (#[trigger] board@[t])@.len() == width,
            decreases board@.len() - i,
        {
            if board[i].len() != width {
                return None;
            }
            i = i + 1;
        }
        let rows = parse_lines(&board, Axis::Horizontal);
        let transposed = transpose(&board);
        proof {
            assert forall|x: int| 0 <= x < width implies (#[trigger] transposed@[x])@ =~= column_of(
                board@,
                x,
            ) by {}
        }
        let columns = parse_lines(&transposed, Axis::Vertical);
        if columns.len() > usize::MAX - rows.len() {
            return None;
        }
        let n_vars = rows.len() + columns.len();
        let mut words: Vec<Vec<char>> = Vec::new();
        let mut w: usize = 0;
        while w < word_list.len()
            invariant
                w <= word_list@.len(),
                words@.len() == w,
                forall|t: int| 0 <= t < w ==> (#[trigger] words@[t])@ == word_list@[t]@,
            decreases word_list@.len() - w,
        {
            words.push(word_chars(word_list[w].as_str()));
            w = w + 1;
        }
        // which row slot covers each square
        let mut row_at: Vec<Vec<Option<usize>>> = Vec::new();
        let mut y: usize = 0;
        while y < board.len()
            invariant
                y <= board@.len(),
                width == board@[0]@.len(),
                row_at@.len() == y,
                forall|t: int| 0 <= t < y ==> (#[trigger] row_at@[t])@.len() == width,
                forall|t: int, u: int|
                    0 <= t < y && 0 <= u < width ==> (#[trigger] row_at@[t]@[u]) is None,
            decreases board@.len() - y,
        {
            let mut blank: Vec<Option<usize>> = Vec::new();
            let mut u: usize = 0;
            while u < width
                invariant
                    u <= width,
                    blank@.len() == u,
                    forall|t: int| 0 <= t < u ==> (#[trigger] blank@[t]) is None,
                decreases width - u,
            {
                blank.push(None);
                u = u + 1;
            }
            row_at.push(blank);
            y = y + 1;
        }
        let mut k: usize = 0;
        while k < rows.len()
            invariant
                k <= rows@.len(),
                width == board@[0]@.len(),
                row_at@.len() == board@.len(),
                forall|t: int| 0 <= t < row_at@.len() ==> (#[trigger] row_at@[t])@.len() == width,
                forall|t: int|
                    0 <= t < rows@.len() ==> (#[trigger] rows@[t]).axis == Axis::Horizontal
                        && rows@[t].start_position.1 < board@.len() && rows@[t].start_position.0
                        + rows@[t].line_length <= width,
                forall|ty: int, tx: int|
                    0 <= ty < row_at@.len() && 0 <= tx < width && (#[trigger] row_at@[ty]@[tx])
                        is Some ==> {
                        let t = row_at@[ty]@[tx]->0;
                        &&& t < k
                        &&& line_covers(rows@[t as int], tx, ty)
                    },
                forall|k2: int, tx: int, ty: int|
                    0 <= k2 < k && 0 <= ty < row_at@.len() && 0 <= tx < width && #[trigger] line_covers(
                        rows@[k2],
                        tx,
                        ty,
                    ) ==> row_at@[ty]@[tx] is Some,
            decreases rows@.len() - k,
        {
            let ln = rows[k];
            let start_x = ln.start_position.0;
            let ln_y = ln.start_position.1;
            let mut t: usize = 0;
            while t < ln.line_length
                invariant
                    t <= ln.line_length,
                    ln == rows@[k as int],
                    k < rows@.len(),
                    start_x == ln.start_position.0,
                    ln_y == ln.start_position.1,
                    width == board@[0]@.len(),
                    row_at@.len() == board@.len(),
                    ln.axis == Axis::Horizontal,
                    ln_y < board@.len(),
                    start_x + ln.line_length <= width,
                    forall|tt: int|
                        0 <= tt < row_at@.len() ==> (#[trigger] row_at@[tt])@.len() == width,
                    forall|ty: int, tx: int|
                        0 <= ty < row_at@.len() && 0 <= tx < width && (#[trigger] row_at@[ty]@[tx])
                            is Some ==> {
                            let u = row_at@[ty]@[tx]->0;
                            &&& u < k + 1
                            &&& line_covers(rows@[u as int], tx, ty)
                        },
                    forall|k2: int, tx: int, ty: int|
                        0 <= k2 < k && 0 <= ty < row_at@.len() && 0 <= tx < width
                            && #[trigger] line_covers(rows@[k2], tx, ty) ==> row_at@[ty]@[tx]
                            is Some,
                    forall|tx: int|
                        start_x <= tx < start_x + t ==> (#[trigger] row_at@[ln_y as int]@[tx])
                            is Some,
                decreases ln.line_length - t,
            {
                set_row_mark(&mut row_at, start_x + t, ln_y, k);
                t = t + 1;
            }
            proof {
                assert forall|k2: int, tx: int, ty: int|
                    0 <= k2 < k + 1 && 0 <= ty < row_at@.len() && 0 <= tx < width
                        && #[trigger] line_covers(rows@[k2], tx, ty) implies row_at@[ty]@[tx]
                    is Some by {
                    if k2 == k {
                        assert(ty == ln_y && start_x <= tx < start_x + ln.line_length);
                    }
                }
            }
            k = k + 1;
        }
        // one constraint per crossing of a row slot and a column slot
        let mut constraints: Vec<Intersection> = Vec::new();
        let mut k2: usize = 0;
        while k2 < columns.len()
            invariant
                k2 <= columns@.len(),
                n_vars == rows@.len() + columns@.len(),
                width == board@[0]@.len(),
                board@.len() <= usize::MAX,
                row_at@.len() == board@.len(),
                forall|t: int| 0 <= t < row_at@.len() ==> (#[trigger] row_at@[t])@.len() == width,
                forall|t: int|
                    0 <= t < columns@.len() ==> (#[trigger] columns@[t]).axis == Axis::Vertical
                        && columns@[t].start_position.0 < width && columns@[t].start_position.1
                        + columns@[t].line_length <= board@.len(),
                forall|ty: int, tx: int|
                    0 <= ty < row_at@.len() && 0 <= tx < width && (#[trigger] row_at@[ty]@[tx])
                        is Some ==> {
                        let t = row_at@[ty]@[tx]->0;
                        &&& t < rows@.len()
                        &&& line_covers(rows@[t as int], tx, ty)
                    },
                forall|kr: int, tx: int, ty: int|
                    0 <= kr < rows@.len() && 0 <= ty < row_at@.len() && 0 <= tx < width
                        && #[trigger] line_covers(rows@[kr], tx, ty) ==> row_at@[ty]@[tx] is Some,
                forall|t: int|
                    0 <= t < rows@.len() ==> (#[trigger] rows@[t]).axis == Axis::Horizontal,
                crate::csp::all_valid(constraints@, n_vars as nat),
                words@.len() <= u64::MAX,
                forall|t: int|
                    0 <= t < constraints@.len() ==> is_crossing_constraint(
                        rows@,
                        columns@,
                        words@,
                        #[trigger] constraints@[t],
                    ),
                forall|kr: int, kc2: int|
                    0 <= kr < rows@.len() && 0 <= kc2 < k2 && crosses(
                        #[trigger] rows@[kr],
                        #[trigger] columns@[kc2],
                    ) ==> exists|t: int|
                        0 <= t < constraints@.len() && (#[trigger] constraints@[t]).column
                            == rows@.len() + kc2 && line_covers(
                            rows@[constraints@[t].row as int],
                            columns@[kc2].start_position.0 as int,
                            rows@[kr].start_position.1 as int,
                        ),
            decreases columns@.len() - k2,
        {
            let ln = columns[k2];
            let col_x = ln.start_position.0;
            let start_y = ln.start_position.1;
            let mut t: usize = 0;
            while t < ln.line_length
                invariant
                    t <= ln.line_length,
                    ln == columns@[k2 as int],
                    k2 < columns@.len(),
                    col_x == ln.start_position.0,
                    start_y == ln.start_position.1,
                    n_vars == rows@.len() + columns@.len(),
                    width == board@[0]@.len(),
                    board@.len() <= usize::MAX,
                    row_at@.len() == board@.len(),
                    col_x < width,
                    start_y + ln.line_length <= board@.len(),
                    forall|tt: int|
                        0 <= tt < row_at@.len() ==> (#[trigger] row_at@[tt])@.len() == width,
                    forall|ty: int, tx: int|
                        0 <= ty < row_at@.len() && 0 <= tx < width && (#[trigger] row_at@[ty]@[tx])
                            is Some ==> {
                            let u = row_at@[ty]@[tx]->0;
                            &&& u < rows@.len()
                            &&& line_covers(rows@[u as int], tx, ty)
                        },
                    forall|kr: int, tx: int, ty: int|
                        0 <= kr < rows@.len() && 0 <= ty < row_at@.len() && 0 <= tx < width
                            && #[trigger] line_covers(rows@[kr], tx, ty) ==> row_at@[ty]@[tx]
                            is Some,
                    forall|u: int|
                        0 <= u < rows@.len() ==> (#[trigger] rows@[u]).axis == Axis::Horizontal,
                    crate::csp::all_valid(constraints@, n_vars as nat),
                    words@.len() <= u64::MAX,
                    forall|u: int|
                        0 <= u < constraints@.len() ==> is_crossing_constraint(
                            rows@,
                            columns@,
                            words@,
                            #[trigger] constraints@[u],
                        ),
                    forall|kr: int, kc2: int|
                        0 <= kr < rows@.len() && 0 <= kc2 < k2 && crosses(
                            #[trigger] rows@[kr],
                            #[trigger] columns@[kc2],
                        ) ==> exists|u: int|
                            0 <= u < constraints@.len() && (#[trigger] constraints@[u]).column
                                == rows@.len() + kc2 && line_covers(
                                rows@[constraints@[u].row as int],
                                columns@[kc2].start_position.0 as int,
                                rows@[kr].start_position.1 as int,
                            ),
                    forall|kr: int|
                        0 <= kr < rows@.len() && crosses(#[trigger] rows@[kr], ln) && rows@[
                            kr].start_position.1 < start_y + t ==> exists|u: int|
                            0 <= u < constraints@.len() && (#[trigger] constraints@[u]).column
                                == rows@.len() + k2 && line_covers(
                                rows@[constraints@[u].row as int],
                                col_x as int,
                                rows@[kr].start_position.1 as int,
                            ),
                decreases ln.line_length - t,
            {
                let cross_y = start_y + t;
                let ghost constraints0 = constraints@;
                match row_at[cross_y][col_x] {
                    Some(row_k) => {
                        proof {
                            assert(line_covers(rows@[row_k as int], col_x as int, cross_y as int));
                        }
                        let c = Intersection {
                            row: row_k,
                            column: rows.len() + k2,
                            row_char_index: col_x - rows[row_k].start_position.0,
                            column_char_index: t,
                            words: clone_words(&words),
                        };
                        constraints.push(c);
                        proof {
                            assert(rows@[row_k as int].axis == Axis::Horizontal);
                            assert(cross_y == rows@[row_k as int].start_position.1);
                            assert(is_crossing_constraint(
                                rows@,
                                columns@,
                                words@,
                                constraints@.last(),
                            ));
                        }
                    },
                    None => {},
                }
                proof {
                    assert forall|u: int|
                        0 <= u < constraints0.len() implies constraints@[u] == constraints0[u]
                        by {}
                    assert forall|kr: int|
                        0 <= kr < rows@.len() && crosses(#[trigger] rows@[kr], ln) && rows@[
                            kr].start_position.1 < start_y + t + 1 implies exists|u: int|
                        0 <= u < constraints@.len() && (#[trigger] constraints@[u]).column
                            == rows@.len() + k2 && line_covers(
                            rows@[constraints@[u].row as int],
                            col_x as int,
                            rows@[kr].start_position.1 as int,
                        ) by {
                        if rows@[kr].start_position.1 < start_y + t {
                            let u = choose|u: int|
                                0 <= u < constraints0.len() && (#[trigger] constraints0[u]).column
                                    == rows@.len() + k2 && line_covers(
                                    rows@[constraints0[u].row as int],
                                    col_x as int,
                                    rows@[kr].start_position.1 as int,
                                );
                            assert(constraints@[u] == constraints0[u]);
                        } else {
                            assert(rows@[kr].axis == Axis::Horizontal);
                            assert(line_covers(rows@[kr], col_x as int, cross_y as int));
                            assert(row_at@[cross_y as int]@[col_x as int] is Some);
                            let u = constraints@.len() - 1;
                            assert((#[trigger] constraints@[u]).column == rows@.len() + k2
                                && line_covers(
                                rows@[constraints@[u].row as int],
                                col_x as int,
                                rows@[kr].start_position.1 as int,
                            ));
                        }
                    }
                }
                t = t + 1;
            }
            proof {
                assert forall|kr: int, kc2: int|
                    0 <= kr < rows@.len() && 0 <= kc2 < k2 + 1 && crosses(
                        #[trigger] rows@[kr],
                        #[trigger] columns@[kc2],
                    ) implies exists|u: int|
                    0 <= u < constraints@.len() && (#[trigger] constraints@[u]).column
                        == rows@.len() + kc2 && line_covers(
                        rows@[constraints@[u].row as int],
                        columns@[kc2].start_position.0 as int,
                        rows@[kr].start_position.1 as int,
                    ) by {
                    if kc2 == k2 {
                        assert(rows@[kr].start_position.1 < start_y + ln.line_length);
                    }
                }
            }
            k2 = k2 + 1;
        }
        proof {
            assert forall|x: int| 0 <= x < width implies (#[trigger] transposed@[x])@ == column_of(
                board@,
                x,
            ) by {
                assert(transposed@[x]@ =~= column_of(board@, x));
            }
            assert forall|x: int, s2: int, l2: int|
                0 <= x < width && #[trigger] is_run(column_of(board@, x), s2, l2)
                implies contains_line(columns@, Axis::Vertical, x, s2, l2) by {
                assert(transposed@[x]@ == column_of(board@, x));
                assert(is_run(transposed@[x]@, s2, l2));
            }
            assert forall|k3: int|
                0 <= k3 < columns@.len() implies {
                let ln = #[trigger] columns@[k3];
                &&& ln.axis == Axis::Vertical
                &&& ln.start_position.0 < width
                &&& is_run(
                    column_of(board@, ln.start_position.0 as int),
                    ln.start_position.1 as int,
                    ln.line_length as int,
                )
            } by {
                let ln = columns@[k3];
                assert(transposed@[ln.start_position.0 as int]@ == column_of(
                    board@,
                    ln.start_position.0 as int,
                ));
            }
            let lines = rows@ + columns@;
            assert forall|k3: int|
                0 <= k3 < lines.len() implies line_in_board(
                #[trigger] lines[k3],
                board@.len() as int,
                width as int,
            ) by {
                if k3 < rows@.len() {
                    assert(lines[k3] == rows@[k3]);
                } else {
                    assert(lines[k3] == columns@[k3 - rows@.len()]);
                }
            }
        }
        Some(Jolka { board, rows, columns, words, constraints })
    }
}

/// The horizontal slot `r` and the vertical slot `c` share a square.
pub open spec fn crosses(r: Line, c: Line) -> bool {
    &&& r.start_position.0 <= c.start_position.0 < r.start_position.0 + r.line_length
    &&& c.start_position.1 <= r.start_position.1 < c.start_position.1 + c.line_length
}

/// `c` is the constraint of a genuine crossing: its variables name a row slot
/// and a column slot that share a square, its letter offsets point at that
/// square, and it carries the puzzle's word table.
pub open spec fn is_crossing_constraint(
    rows: Seq<Line>,
    columns: Seq<Line>,
    words: Seq<Vec<char>>,
    c: Intersection,
) -> bool {
    &&& c.row < rows.len()
    &&& rows.len() <= c.column < rows.len() + columns.len()
    &&& crosses(rows[c.row as int], columns[c.column - rows.len()])
    &&& c.row_char_index == columns[c.column - rows.len()].start_position.0 - rows[
        c.row as int
    ].start_position.0
    &&& c.column_char_index == rows[c.row as int].start_position.1 - columns[
        c.column - rows.len()
    ].start_position.1
    &&& c.words@.len() == words.len()
    &&& forall|w: int| 0 <= w < words.len() ==> (#[trigger] c.words@[w])@ == words[w]@
}

/// `env` fills the puzzle properly: each slot gets a word of its own length,
/// and wherever a row slot and a column slot cross, the two words put the
/// same letter on the shared square.
pub open spec fn jolka_filling_ok(
    rows: Seq<Line>,
    columns: Seq<Line>,
    words: Seq<Vec<char>>,
    env: Seq<u64>,
) -> bool {
    &&& env.len() == rows.len() + columns.len()
    &&& forall|k: int|
        0 <= k < env.len() ==> (#[trigger] env[k]) < words.len() && words[env[k] as int]@.len()
            == (rows + columns)[k].line_length
    &&& forall|kr: int, kc: int|
        0 <= kr < rows.len() && 0 <= kc < columns.len() && crosses(
            #[trigger] rows[kr],
            #[trigger] columns[kc],
        ) ==> words[env[kr] as int]@[columns[kc].start_position.0 - rows[kr].start_position.0]
            == words[env[rows.len() + kc] as int]@[rows[kr].start_position.1 - columns[
            kc].start_position.1]
}

/// Only one horizontal slot runs through any square: stretches of one board
/// row are separated, and the slot list holds each stretch once.
proof fn lemma_rows_cover_unique(
    rows: Seq<Line>,
    board: Seq<Vec<Cell>>,
    k1: int,
    k2: int,
    x: int,
    y: int,
)
    requires
        forall|k: int|
            0 <= k < rows.len() ==> ((#[trigger] rows[k]).axis == Axis::Horizontal && rows[
                k].start_position.1 < board.len() && is_run(
                board[rows[k].start_position.1 as int]@,
                rows[k].start_position.0 as int,
                rows[k].line_length as int,
            )),
        forall|t1: int, t2: int|
            0 <= t1 < t2 < rows.len() ==> (#[trigger] rows[t1]) != (#[trigger] rows[t2]),
        0 <= k1 < rows.len(),
        0 <= k2 < rows.len(),
        line_covers(rows[k1], x, y),
        line_covers(rows[k2], x, y),
    ensures
        k1 == k2,
{
    let s1 = rows[k1].start_position.0 as int;
    let s2 = rows[k2].start_position.0 as int;
    let l1 = rows[k1].line_length as int;
    let l2 = rows[k2].line_length as int;
    if s1 < s2 {
        crate::jolka_parser::lemma_runs_separated(board[y]@, s1, l1, s2, l2);
    } else if s2 < s1 {
        crate::jolka_parser::lemma_runs_separated(board[y]@, s2, l2, s1, l1);
    } else {
        crate::jolka_parser::lemma_runs_equal(board[y]@, s1, l1, l2);
        assert(rows[k1] == rows[k2]);
        if k1 != k2 {
            assert(false);
        }
    }
}

/// Only one vertical slot runs through any square.
proof fn lemma_columns_cover_unique(
    columns: Seq<Line>,
    board: Seq<Vec<Cell>>,
    k1: int,
    k2: int,
    x: int,
    y: int,
)
    requires
        forall|k: int|
            0 <= k < columns.len() ==> ((#[trigger] columns[k]).axis == Axis::Vertical && is_run(
                column_of(board, columns[k].start_position.0 as int),
                columns[k].start_position.1 as int,
                columns[k].line_length as int,
            )),
        forall|t1: int, t2: int|
            0 <= t1 < t2 < columns.len() ==> (#[trigger] columns[t1]) != (#[trigger] columns[t2]),
        0 <= k1 < columns.len(),
        0 <= k2 < columns.len(),
        line_covers(columns[k1], x, y),
        line_covers(columns[k2], x, y),
    ensures
        k1 == k2,
{
    let s1 = columns[k1].start_position.1 as int;
    let s2 = columns[k2].start_position.1 as int;
    let l1 = columns[k1].line_length as int;
    let l2 = columns[k2].line_length as int;
    if s1 < s2 {
        crate::jolka_parser::lemma_runs_separated(column_of(board, x), s1, l1, s2, l2);
    } else if s2 < s1 {
        crate::jolka_parser::lemma_runs_separated(column_of(board, x), s2, l2, s1, l1);
    } else {
        crate::jolka_parser::lemma_runs_equal(column_of(board, x), s1, l1, l2);
        assert(columns[k1] == columns[k2]);
        if k1 != k2 {
            assert(false);
        }
    }
}

/// The column of the board at `x`, top to bottom.
pub open spec fn column_of(b: Seq<Vec<Cell>>, x: int) -> Seq<Cell> {
    Seq::new(b.len(), |y: int| b[y]@[x])
}

fn clone_chars(d: &Vec<char>) -> (r: Vec<char>)
    ensures
        r@ == d@,
{
    let mut r: Vec<char> = Vec::new();
    let mut i: usize = 0;
    while i < d.len()
        invariant
            i <= d@.len(),
            r@ == d@.take(i as int),
        decreases d@.len() - i,
    {
        r.push(d[i]);
        proof {
            assert(d@.take(i + 1) =~= d@.take(i as int).push(d@[i as int]));
        }
        i = i + 1;
    }
    proof {
        assert(d@.take(d@.len() as int) =~= d@);
    }
    r
}

fn clone_words(words: &Vec<Vec<char>>) -> (r: Vec<Vec<char>>)
    ensures
        r@.len() == words@.len(),
        forall|i: int| 0 <= i < words@.len() ==> (#[trigger] r@[i])@ == words@[i]@,
{
    let mut r: Vec<Vec<char>> = Vec::new();
    let mut i: usize = 0;
    while i < words.len()
        invariant
            i <= words@.len(),
            r@.len() == i,
            forall|t: int| 0 <= t < i ==> (#[trigger] r@[t])@ == words@[t]@,
        decreases words@.len() - i,
    {
        r.push(clone_chars(&words[i]));
        i = i + 1;
    }
    r
}

impl CSP for Jolka {
    type Constraint = Intersection;

    open spec fn spec_domains(&self) -> Seq<Seq<u64>> {
        Seq::new(
            self.spec_lines().len(),
            |k: int| word_domain(self.spec_words(), self.spec_lines()[k].line_length as int),
        )
    }

    open spec fn spec_initial(&self) -> Seq<Option<u64>> {
        Seq::new(self.spec_lines().len(), |k: int| None)
    }

    closed spec fn spec_constraints(&self) -> Seq<Intersection> {
        self.constraints@
    }

    fn num_variables(&self) -> (n: usize) {
        proof {
            use_type_invariant(self);
        }
        self.rows.len() + self.columns.len()
    }

    fn domains(&self) -> (r: Vec<Vec<u64>>) {
        proof {
            use_type_invariant(self);
        }
        let n_rows = self.rows.len();
        let n = n_rows + self.columns.len();
        let mut r: Vec<Vec<u64>> = Vec::new();
        let mut k: usize = 0;
        while k < n
            invariant
                k <= n,
                n_rows == self.spec_rows().len(),
                n == self.spec_lines().len(),
                r@.len() == k,
                forall|t: int| 0 <= t < k ==> (#[trigger] r@[t])@ == self.spec_domains()[t],
            decreases n - k,
        {
            let ln = if k < n_rows {
                self.rows[k]
            } else {
                self.columns[k - n_rows]
            };
            proof {
                assert(ln == self.spec_lines()[k as int]);
            }
            r.push(word_indices_of_length(&self.words, ln.line_length));
            k = k + 1;
        }
        r
    }

    fn initial_assignments(&self) -> (r: Vec<Option<u64>>) {
        proof {
            use_type_invariant(self);
        }
        let n = self.rows.len() + self.columns.len();
        let mut r: Vec<Option<u64>> = Vec::new();
        let mut k: usize = 0;
        while k < n
            invariant
                k <= n,
                n == self.spec_lines().len(),
                r@.len() == k,
                forall|t: int| 0 <= t < k ==> (#[trigger] r@[t]) is None,
            decreases n - k,
        {
            r.push(None);
            k = k + 1;
        }
        proof {
            assert(r@ =~= self.spec_initial());
        }
        r
    }

    fn constraints(&self) -> (r: &Vec<Intersection>) {
        &self.constraints
    }
}

fn set_board_char(board: &mut Vec<Vec<Option<char>>>, x: usize, y: usize, c: char)
    requires
        y < old(board)@.len(),
        x < old(board)@[y as int]@.len(),
    ensures
        final(board)@.len() == old(board)@.len(),
        forall|t: int| 0 <= t < old(board)@.len() && t != y ==> final(board)@[t] == old(board)@[t],
        final(board)@[y as int]@ == old(board)@[y as int]@.update(x as int, Some(c)),
{
    let mut row: Vec<Option<char>> = Vec::new();
    let m = board[y].len();
    let mut j: usize = 0;
    while j < m
        invariant
            j <= m,
            y < board@.len(),
            m == board@[y as int]@.len(),
            row@ == board@[y as int]@.take(j as int),
        decreases m - j,
    {
        row.push(board[y][j]);
        proof {
            assert(board@[y as int]@.take(j + 1) =~= board@[y as int]@.take(j as int).push(
                board@[y as int]@[j as int],
            ));
        }
        j = j + 1;
    }
    proof {
        assert(board@[y as int]@.take(m as int) =~= board@[y as int]@);
    }
    row[x] = Some(c);
    board[y] = row;
}

/// A solved crossword: each open square carries its letter, each blocked (or
/// never covered) square none.
#[derive(Eq, PartialEq, Hash, Clone, Debug)]
pub struct JolkaSolution {
    pub board: Vec<Vec<Option<char>>>,
}

impl Solution<Jolka> for JolkaSolution {
    /// The output board has the shape of the puzzle board; a square holds a
    /// letter exactly when some word slot runs through it, and then the
    /// letter that every slot running through it puts there.
    open spec fn is_construction(problem: &Jolka, env: Seq<u64>, s: JolkaSolution) -> bool {
        let lines = problem.spec_lines();
        let words = problem.spec_words();
        &&& s.board@.len() == problem.spec_board().len()
        &&& forall|y: int|
            0 <= y < s.board@.len() ==> (#[trigger] s.board@[y])@.len() == problem.spec_board()[
                y
            ]@.len()
        &&& forall|x: int, y: int|
            0 <= y < s.board@.len() && 0 <= x < s.board@[y]@.len() ==> (((
            #[trigger] s.board@[y]@[x]) is Some) <==> exists|k: int|
                0 <= k < lines.len() && #[trigger] line_covers(lines[k], x, y))
        &&& forall|x: int, y: int, k: int|
            0 <= y < s.board@.len() && 0 <= x < s.board@[y]@.len() && 0 <= k < lines.len()
                && #[trigger] line_covers(lines[k], x, y) ==> (env[k] < words.len()
                && s.board@[y]@[x] == Some(words[env[k] as int]@[line_offset(lines[k], x, y)]))
    }

    fn construct(problem: &Jolka, env: &Vec<u64>) -> (r: Self) {
        let n_words = problem.words.len();
        problem.solution_characterization();
        proof {
            use_type_invariant(problem);
            lemma_word_domain_members_all(problem.words@, problem.spec_lines());
        }
        let height_bound = problem.board.len();
        let width_bound = problem.board[0].len();
        proof {
            assert(height_bound == problem.spec_board().len());
            assert(width_bound == problem.spec_width());
            assert forall|k2: int|
                0 <= k2 < problem.spec_lines().len() implies (#[trigger] env@[k2])
                < problem.spec_words().len() && problem.spec_words()[env@[k2] as int]@.len()
                == problem.spec_lines()[k2].line_length by {
                assert(problem.spec_domains()[k2].contains(env@[k2]));
                assert(word_domain(
                    problem.spec_words(),
                    problem.spec_lines()[k2].line_length as int,
                ).contains(env@[k2]));
            }
        }
        let mut board: Vec<Vec<Option<char>>> = Vec::new();
        let mut y: usize = 0;
        while y < problem.board.len()
            invariant
                y <= problem.spec_board().len(),
                board@.len() == y,
                forall|t: int|
                    0 <= t < y ==> (#[trigger] board@[t])@.len() == problem.spec_board()[t]@.len(),
                forall|t: int, u: int|
                    0 <= t < y && 0 <= u < board@[t]@.len() ==> (#[trigger] board@[t]@[u]) is None,
            decreases problem.spec_board().len() - y,
        {
            let m = problem.board[y].len();
            let mut row: Vec<Option<char>> = Vec::new();
            let mut u: usize = 0;
            while u < m
                invariant
                    u <= m,
                    row@.len() == u,
                    forall|t: int| 0 <= t < u ==> (#[trigger] row@[t]) is None,
                decreases m - u,
            {
                row.push(None);
                u = u + 1;
            }
            board.push(row);
            y = y + 1;
        }
        let ghost lines = problem.spec_lines();
        let ghost words = problem.spec_words();
        let n_rows = problem.rows.len();
        let n = n_rows + problem.columns.len();
        let mut k: usize = 0;
        while k < n
            invariant
                k <= n,
                csp_wf(problem),
                is_solution(problem, env@),
                n_words == words.len(),
                n_rows == problem.spec_rows().len(),
                n == lines.len(),
                problem.spec_width() <= usize::MAX,
                problem.spec_board().len() <= usize::MAX,
                lines == problem.spec_lines(),
                words == problem.spec_words(),
                env@.len() == n,
                forall|k2: int|
                    0 <= k2 < lines.len() ==> line_in_board(
                        #[trigger] lines[k2],
                        problem.spec_board().len() as int,
                        problem.spec_width(),
                    ),
                forall|t: int|
                    0 <= t < problem.spec_board().len() ==> (#[trigger] problem.spec_board()[
                    t])@.len() == problem.spec_width(),
                forall|k2: int|
                    0 <= k2 < lines.len() ==> (#[trigger] env@[k2]) < words.len() && words[
                    env@[k2] as int]@.len() == lines[k2].line_length,
                board@.len() == problem.spec_board().len(),
                forall|t: int|
                    0 <= t < board@.len() ==> (#[trigger] board@[t])@.len()
                        == problem.spec_board()[t]@.len(),
                forall|x: int, y2: int|
                    0 <= y2 < board@.len() && 0 <= x < board@[y2]@.len() ==> (((
                    #[trigger] board@[y2]@[x]) is Some) <==> exists|k2: int|
                        0 <= k2 < k && #[trigger] line_covers(lines[k2], x, y2)),
                jolka_filling_ok(problem.spec_rows(), problem.spec_columns(), words, env@),
                forall|x: int, y2: int, k2: int|
                    0 <= y2 < board@.len() && 0 <= x < board@[y2]@.len() && 0 <= k2 < k
                        && #[trigger] line_covers(lines[k2], x, y2) ==> board@[y2]@[x] == Some(
                        words[env@[k2] as int]@[line_offset(lines[k2], x, y2)],
                    ),
            decreases n - k,
        {
            let ln = if k < n_rows {
                problem.rows[k]
            } else {
                problem.columns[k - n_rows]
            };
            proof {
                assert(ln == lines[k as int]);
            }
            let wi = env[k];
            let word = &problem.words[wi as usize];
            let mut t: usize = 0;
            while t < word.len()
                invariant
                    t <= word@.len(),
                    k < n,
                    n == lines.len(),
                    ln == lines[k as int],
                    wi == env@[k as int],
                    wi < words.len(),
                    word@ == words[wi as int]@,
                    word@.len() == ln.line_length,
                    problem.spec_width() <= usize::MAX,
                    problem.spec_board().len() <= usize::MAX,
                    line_in_board(
                        ln,
                        problem.spec_board().len() as int,
                        problem.spec_width(),
                    ),
                    forall|t2: int|
                        0 <= t2 < problem.spec_board().len() ==> (#[trigger] problem.spec_board()[
                        t2])@.len() == problem.spec_width(),
                    board@.len() == problem.spec_board().len(),
                    forall|t2: int|
                        0 <= t2 < board@.len() ==> (#[trigger] board@[t2])@.len()
                            == problem.spec_board()[t2]@.len(),
                    forall|x: int, y2: int|
                        0 <= y2 < board@.len() && 0 <= x < board@[y2]@.len() ==> (((
                        #[trigger] board@[y2]@[x]) is Some) <==> ((exists|k2: int|
                            0 <= k2 < k && #[trigger] line_covers(lines[k2], x, y2)) || (
                        line_covers(ln, x, y2) && line_offset(ln, x, y2) < t))),
                    n_rows == problem.spec_rows().len(),
                    lines == problem.spec_lines(),
                    words == problem.spec_words(),
                    env@.len() == n,
                    jolka_filling_ok(problem.spec_rows(), problem.spec_columns(), words, env@),
                    forall|x: int, y2: int, k2: int|
                        0 <= y2 < board@.len() && 0 <= x < board@[y2]@.len() && 0 <= k2 < k
                            && #[trigger] line_covers(lines[k2], x, y2) ==> board@[y2]@[x] == Some(
                            words[env@[k2] as int]@[line_offset(lines[k2], x, y2)],
                        ),
                    forall|x: int, y2: int|
                        0 <= y2 < board@.len() && 0 <= x < board@[y2]@.len() && line_covers(
                            ln,
                            x,
                            y2,
                        ) && #[trigger] line_offset(ln, x, y2) < t ==> board@[y2]@[x] == Some(
                            word@[line_offset(ln, x, y2)],
                        ),
                decreases word@.len() - t,
            {
                let (x, y2) = match ln.axis {
                    Axis::Horizontal => (ln.start_position.0 + t, ln.start_position.1),
                    Axis::Vertical => (ln.start_position.0, ln.start_position.1 + t),
                };
                proof {
                    assert(line_covers(ln, x as int, y2 as int));
                    assert(line_offset(ln, x as int, y2 as int) == t);
                }
                set_board_char(&mut board, x, y2, word[t]);
                proof {
                    use_type_invariant(problem);
                    assert forall|x2: int, y3: int, k2: int|
                        0 <= y3 < board@.len() && 0 <= x2 < board@[y3]@.len() && 0 <= k2 < k
                            && #[trigger] line_covers(lines[k2], x2, y3) implies board@[y3]@[x2]
                        == Some(words[env@[k2] as int]@[line_offset(lines[k2], x2, y3)]) by {
                        if x2 == x && y3 == y2 {
                            // the square just written: slot k2 crosses slot k here
                            if k < n_rows {
                                assert(lines[k2] == problem.rows@[k2]);
                                assert(lines[k as int] == problem.rows@[k as int]);
                                lemma_rows_cover_unique(
                                    problem.rows@,
                                    problem.board@,
                                    k2,
                                    k as int,
                                    x2,
                                    y3,
                                );
                            } else if k2 < n_rows {
                                let kc = k - n_rows;
                                assert(lines[k2] == problem.rows@[k2]);
                                assert(lines[k as int] == problem.columns@[kc as int]);
                                assert(crosses(problem.rows@[k2], problem.columns@[kc as int]));
                                assert(words[env@[k2] as int]@[problem.columns@[
                                    kc as int].start_position.0 - problem.rows@[
                                    k2].start_position.0] == words[env@[n_rows + kc] as int]@[
                                    problem.rows@[k2].start_position.1 - problem.columns@[
                                    kc as int].start_position.1]);
                                assert(line_offset(lines[k2], x2, y3) == x2 - problem.rows@[
                                    k2].start_position.0);
                                assert(line_offset(ln, x2, y3) == t);
                            } else {
                                assert(lines[k2] == problem.columns@[k2 - n_rows]);
                                assert(lines[k as int] == problem.columns@[k - n_rows]);
                                lemma_columns_cover_unique(
                                    problem.columns@,
                                    problem.board@,
                                    k2 - n_rows,
                                    k - n_rows,
                                    x2,
                                    y3,
                                );
                            }
                        }
                    }
                }
                t = t + 1;
            }
            proof {
                assert forall|x: int, y2: int|
                    0 <= y2 < board@.len() && 0 <= x < board@[y2]@.len() implies (((
                #[trigger] board@[y2]@[x]) is Some) <==> exists|k2: int|
                    0 <= k2 < k + 1 && #[trigger] line_covers(lines[k2], x, y2)) by {
                    if line_covers(ln, x, y2) {
                        assert(line_covers(lines[k as int], x, y2));
                        assert(line_offset(ln, x, y2) < word@.len());
                    }
                }
                assert forall|x: int, y2: int, k2: int|
                    0 <= y2 < board@.len() && 0 <= x < board@[y2]@.len() && 0 <= k2 < k + 1
                        && #[trigger] line_covers(lines[k2], x, y2) implies board@[y2]@[x] == Some(
                    words[env@[k2] as int]@[line_offset(lines[k2], x, y2)]) by {
                    if k2 == k {
                        assert(line_offset(ln, x, y2) < word@.len());
                    }
                }
            }
            k = k + 1;
        }
        JolkaSolution { board }
    }
}

/// Domain membership for every slot at once: what a value in a slot's domain
/// says about the word it names.
proof fn lemma_word_domain_members_all(words: Seq<Vec<char>>, lines: Seq<Line>)
    requires
        words.len() <= u64::MAX,
    ensures
        forall|k: int, wi: u64|
            0 <= k < lines.len() && #[trigger] word_domain(
                words,
                lines[k].line_length as int,
            ).contains(wi) ==> wi < words.len() && words[wi as int]@.len() == lines[k].line_length,
{
    assert forall|k: int, wi: u64|
        0 <= k < lines.len() && #[trigger] word_domain(
            words,
            lines[k].line_length as int,
        ).contains(wi) implies wi < words.len() && words[wi as int]@.len()
        == lines[k].line_length by {
        lemma_word_domain_members(words, lines[k].line_length as int);
        let dom = word_domain(words, lines[k].line_length as int);
        let t = choose|t: int| 0 <= t < dom.len() && dom[t] == wi;
        assert(dom[t] < words.len() && words[dom[t] as int]@.len() == lines[k].line_length);
    }
}

/// The word list handed out one word at a time.
pub struct Words {
    source: Vec<String>,
    current: usize,
}

impl Words {
    /// The words still to come are those from `spec_current` on.
    pub closed spec fn spec_words(&self) -> Seq<String> {
        self.source@
    }

    pub closed spec fn spec_current(&self) -> int {
        self.current as int
    }

    pub fn new(source: Vec<String>) -> (r: Words)
        ensures
            r.spec_words() == source@,
            r.spec_current() == 0,
    {
        Words { source, current: 0 }
    }

    /// The next word, or `None` once all are handed out.
    pub fn next(&mut self) -> (r: Option<String>)
        ensures
            final(self).spec_words() == old(self).spec_words(),
            if old(self).spec_current() < old(self).spec_words().len() {
                &&& r matches Some(w) && w@ == old(self).spec_words()[old(
                    self,
                ).spec_current()]@
                &&& final(self).spec_current() == old(self).spec_current() + 1
            } else {
                &&& r is None
                &&& final(self).spec_current() == old(self).spec_current()
            },
    {
        if self.current < self.source.len() {
            let w = self.source[self.current].clone();
            self.current = self.current + 1;
            Some(w)
        } else {
            None
        }
    }
}

} // verus!
