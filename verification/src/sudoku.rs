use vstd::prelude::*;

use crate::csp::{all_sat, agrees, csp_wf, is_solution, lift, pair_assignment, Constraint, Solution, CSP};
use crate::sudoku_parser::{
    group_board_by_boxes, group_board_by_columns, group_board_by_rows, make_rows_of_cells,
};

verus! {

/// A digit of the number-grid puzzle.
#[derive(PartialEq, Eq, Hash, Copy, Clone, Ord, PartialOrd, Debug)]
pub enum Number {
    One,
    Two,
    Three,
    Four,
    Five,
    Six,
    Seven,
    Eight,
    Nine,
}

impl View for Number {
    type V = u64;

    /// The digit the variant stands for, `1` through `9`.
    open spec fn view(&self) -> u64 {
        match self {
            Number::One => 1,
            Number::Two => 2,
            Number::Three => 3,
            Number::Four => 4,
            Number::Five => 5,
            Number::Six => 6,
            Number::Seven => 7,
            Number::Eight => 8,
            Number::Nine => 9,
        }
    }
}

impl Number {
    pub fn value(&self) -> (r: u64)
        ensures
            r == self@,
    {
        match self {
            Number::One => 1,
            Number::Two => 2,
            Number::Three => 3,
            Number::Four => 4,
            Number::Five => 5,
            Number::Six => 6,
            Number::Seven => 7,
            Number::Eight => 8,
            Number::Nine => 9,
        }
    }

    pub fn from_value(x: u64) -> (r: Option<Number>)
        ensures
            1 <= x <= 9 ==> (r is Some && r->0@ == x),
            !(1 <= x <= 9) ==> r is None,
    {
        match x {
            1 => Some(Number::One),
            2 => Some(Number::Two),
            3 => Some(Number::Three),
            4 => Some(Number::Four),
            5 => Some(Number::Five),
            6 => Some(Number::Six),
            7 => Some(Number::Seven),
            8 => Some(Number::Eight),
            9 => Some(Number::Nine),
            _ => None,
        }
    }
}

/// One cell of the grid, named by its `(x, y)` position.
#[derive(Copy, Clone, Default, Eq, PartialEq, Hash, Ord, PartialOrd, Debug)]
pub struct Cell {
    pub position: (usize, usize),
}

/// The digits `1` through `9`, handed out in order.
pub struct Numbers {
    current: u8,
}

impl Numbers {
    /// How many digits have been handed out.
    pub closed spec fn spec_current(&self) -> u8 {
        self.current
    }

    pub fn new() -> (r: Numbers)
        ensures
            r.spec_current() == 0,
    {
        Numbers { current: 0 }
    }

    /// The next digit, or `None` once all nine are handed out.
    pub fn next(&mut self) -> (r: Option<Number>)
        ensures
            old(self).spec_current() < 9 ==> (final(self).spec_current() == old(
                self,
            ).spec_current() + 1 && r is Some && r->0@ == old(self).spec_current() + 1),
            old(self).spec_current() >= 9 ==> (r is None && final(self).spec_current() == old(
                self,
            ).spec_current()),
    {
        if self.current >= 9 {
            return None;
        }
        self.current = self.current + 1;
        match self.current {
            1 => Some(Number::One),
            2 => Some(Number::Two),
            3 => Some(Number::Three),
            4 => Some(Number::Four),
            5 => Some(Number::Five),
            6 => Some(Number::Six),
            7 => Some(Number::Seven),
            8 => Some(Number::Eight),
            _ => Some(Number::Nine),
        }
    }
}

/// The binary inequality constraint: two distinct variables must not take the
/// same value.  A partial assignment that leaves either variable open
/// satisfies it vacuously.
#[derive(Eq, PartialEq, Structural, Hash, Clone, Copy, Debug)]
pub struct Unique {
    pub cell_a: usize,
    pub cell_b: usize,
}

impl Constraint for Unique {
    open spec fn valid(&self, n: nat) -> bool {
        &&& self.cell_a < n
        &&& self.cell_b < n
        &&& self.cell_a != self.cell_b
    }

    open spec fn sat(&self, a: Seq<Option<u64>>) -> bool {
        !(a[self.cell_a as int] is Some && a[self.cell_b as int] is Some && a[
        self.cell_a as int]->0 == a[self.cell_b as int]->0)
    }

    fn is_satisfied(&self, env: &Vec<Option<u64>>) -> (r: bool) {
        match (env[self.cell_a], env[self.cell_b]) {
            (Some(a), Some(b)) => a != b,
            _ => true,
        }
    }

    fn prune(&self, domains: &mut Vec<Vec<u64>>, variable: usize, value: u64) {
        let ghost n = domains@.len();
        let other: usize;
        if variable == self.cell_a {
            other = self.cell_b;
        } else if variable == self.cell_b {
            other = self.cell_a;
        } else {
            proof {
                assert forall|w: int, y: u64| 0 <= w < n && w != variable implies ((
                #[trigger] domains@[w]@.contains(y)) <==> (domains@[w]@.contains(y) && self.sat(
                    pair_assignment(n as nat, variable as int, value, w, y),
                ))) by {
                    let pa = pair_assignment(n as nat, variable as int, value, w, y);
                    assert(pa[self.cell_a as int] is Some ==> self.cell_a == w);
                    assert(pa[self.cell_b as int] is Some ==> self.cell_b == w);
                }
            }
            return ;
        }
        let dom = crate::solvers::clone_values(&domains[other]);
        let mut kept: Vec<u64> = Vec::new();
        let mut idx: usize = 0;
        while idx < dom.len()
            invariant
                idx <= dom@.len(),
                forall|y: u64|
                    (#[trigger] kept@.contains(y)) <==> (dom@.take(idx as int).contains(y) && y
                        != value),
                dom@.no_duplicates() ==> kept@.no_duplicates(),
            decreases dom@.len() - idx,
        {
            let ghost kept0 = kept@;
            let y = dom[idx];
            proof {
                assert(dom@.take(idx + 1) =~= dom@.take(idx as int).push(dom@[idx as int]));
            }
            if y != value {
                proof {
                    if dom@.no_duplicates() && kept@.contains(y) {
                        assert(dom@.take(idx as int).contains(y));
                        let t = choose|t: int| 0 <= t < idx && dom@.take(idx as int)[t] == y;
                        assert(dom@[t] == dom@[idx as int]);
                    }
                }
                kept.push(y);
            }
            proof {
                assert forall|z: u64| #[trigger] kept@.contains(z) implies (dom@.take(
                    idx + 1,
                ).contains(z) && z != value) by {
                    if kept0.contains(z) {
                        let t = choose|t: int| 0 <= t < idx && dom@.take(idx as int)[t] == z;
                        assert(dom@.take(idx + 1)[t] == z);
                    } else {
                        assert(z == y);
                        assert(dom@.take(idx + 1)[idx as int] == y);
                    }
                }
                assert forall|z: u64|
                    dom@.take(idx + 1).contains(z) && z != value implies #[trigger] kept@.contains(
                    z) by {
                    let t = choose|t: int|
                        0 <= t < idx + 1 && #[trigger] dom@.take(idx + 1)[t] == z;
                    if t < idx {
                        assert(dom@.take(idx as int)[t] == z);
                        assert(kept0.contains(z));
                        let u = choose|u: int| 0 <= u < kept0.len() && kept0[u] == z;
                        assert(kept@[u] == z);
                    } else {
                        assert(z == y);
                        assert(kept@[kept0.len() as int] == y);
                    }
                }
            }
            idx = idx + 1;
        }
        proof {
            assert(dom@.take(dom@.len() as int) =~= dom@);
        }
        domains[other] = kept;
        proof {
            assert forall|w: int, y: u64| 0 <= w < n && w != variable implies ((
            #[trigger] domains@[w]@.contains(y)) <==> (old(domains)@[w]@.contains(y) && self.sat(
                pair_assignment(n as nat, variable as int, value, w, y),
            ))) by {
                let pa = pair_assignment(n as nat, variable as int, value, w, y);
                if w == other {
                    assert(pa[variable as int] == Some(value));
                    assert(pa[other as int] == Some(y));
                    assert(self.sat(pa) <==> y != value);
                } else {
                    assert(pa[self.cell_a as int] is Some ==> self.cell_a == variable || self.cell_a
                        == w);
                    assert(pa[self.cell_b as int] is Some ==> self.cell_b == variable || self.cell_b
                        == w);
                    assert(self.sat(pa));
                }
            }
        }
    }

    proof fn lemma_sat_extends(&self, a: Seq<Option<u64>>, b: Seq<Option<u64>>) {
    }

    proof fn lemma_pair_split(&self, p: Seq<Option<u64>>, v: int, x: u64, w: int, y: u64) {
        let q1 = p.update(v, Some(x)).update(w, Some(y));
        let q2 = p.update(w, Some(y));
        let pa = pair_assignment(p.len() as nat, v, x, w, y);
        assert(q1[self.cell_a as int] == if self.cell_a == w {
            Some(y)
        } else if self.cell_a == v {
            Some(x)
        } else {
            p[self.cell_a as int]
        });
        assert(q1[self.cell_b as int] == if self.cell_b == w {
            Some(y)
        } else if self.cell_b == v {
            Some(x)
        } else {
            p[self.cell_b as int]
        });
        assert(pa[self.cell_a as int] == if self.cell_a == v {
            Some(x)
        } else if self.cell_a == w {
            Some(y)
        } else {
            None::<u64>
        });
        assert(pa[self.cell_b as int] == if self.cell_b == v {
            Some(x)
        } else if self.cell_b == w {
            Some(y)
        } else {
            None::<u64>
        });
    }
}

/// The nine digits, as candidate values.
pub open spec fn digit_values() -> Seq<u64> {
    seq![1u64, 2u64, 3u64, 4u64, 5u64, 6u64, 7u64, 8u64, 9u64]
}

fn digit_vec() -> (r: Vec<u64>)
    ensures
        r@ == digit_values(),
{
    let mut r: Vec<u64> = Vec::new();
    r.push(1);
    r.push(2);
    r.push(3);
    r.push(4);
    r.push(5);
    r.push(6);
    r.push(7);
    r.push(8);
    r.push(9);
    proof {
        assert(r@ =~= digit_values());
    }
    r
}

fn contains_unique(constraints: &Vec<Unique>, c: Unique) -> (r: bool)
    ensures
        r == constraints@.contains(c),
{
    let mut i: usize = 0;
    while i < constraints.len()
        invariant
            i <= constraints@.len(),
            forall|t: int| 0 <= t < i ==> constraints@[t] != c,
        decreases constraints@.len() - i,
    {
        if constraints[i] == c {
            return true;
        }
        i = i + 1;
    }
    false
}

/// Variables `a` and `b` name cells that share a row, a column or a box.
pub open spec fn same_unit(a: int, b: int) -> bool {
    ||| a / 9 == b / 9
    ||| a % 9 == b % 9
    ||| (a / 27 == b / 27 && (a % 9) / 3 == (b % 9) / 3)
}

/// What a solved grid is: one digit per cell, the clues kept, and no two
/// cells of a row, column or box equal.
pub open spec fn sudoku_solution_ok(clues: Seq<Vec<Option<Number>>>, a: Seq<u64>) -> bool {
    &&& a.len() == 81
    &&& forall|k: int| 0 <= k < 81 ==> 1 <= #[trigger] a[k] <= 9
    &&& forall|y: int, x: int|
        0 <= y < 9 && 0 <= x < 9 && clues[y]@[x] is Some ==> #[trigger] a[y * 9 + x] == clues[
            y
        ]@[x]->0@
    &&& forall|k1: int, k2: int|
        0 <= k1 < 81 && 0 <= k2 < 81 && k1 != k2 && #[trigger] same_unit(k1, k2) ==> a[k1] != a[
            k2
        ]
}

/// The number-grid puzzle: one variable per cell (cell `(x, y)` is variable
/// `y * 9 + x`), every digit a candidate everywhere, the given clues as
/// pre-fixed assignments, and one `Unique` constraint per pair of cells that
/// share a row, a column or a box.
pub struct Sudoku {
    board: Vec<Vec<Cell>>,
    initial_board: Vec<Vec<Option<Number>>>,
    constraints: Vec<Unique>,
}

impl Sudoku {
    /// The clue grid the puzzle was built from.
    pub closed spec fn spec_initial_board(&self) -> Seq<Vec<Option<Number>>> {
        self.initial_board@
    }

    #[verifier::type_invariant]
    spec fn sudoku_inv(&self) -> bool {
        &&& self.initial_board@.len() == 9
        &&& forall|y: int| 0 <= y < 9 ==> (#[trigger] self.initial_board@[y])@.len() == 9
        &&& crate::csp::all_valid(self.constraints@, 81)
        &&& forall|j: int|
            0 <= j < self.constraints@.len() ==> same_unit(
                (#[trigger] self.constraints@[j]).cell_a as int,
                self.constraints@[j].cell_b as int,
            )
        &&& forall|k1: int, k2: int|
            0 <= k1 < 81 && 0 <= k2 < 81 && k1 != k2 && #[trigger] same_unit(k1, k2)
                ==> exists|j: int|
                0 <= j < self.constraints@.len() && (((#[trigger] self.constraints@[j]).cell_a
                    == k1 && self.constraints@[j].cell_b == k2) || (self.constraints@[j].cell_a
                    == k2 && self.constraints@[j].cell_b == k1))
    }

    /// The puzzle as a constraint problem is well formed.
    pub fn well_formed(&self)
        ensures
            csp_wf(self),
    {
        proof {
            use_type_invariant(self);
            assert forall|i: int|
                0 <= i < self.spec_domains().len() implies (
            #[trigger] self.spec_domains()[i]).no_duplicates() by {
                assert(self.spec_domains()[i] == digit_values());
                assert(digit_values().no_duplicates());
            }
        }
    }

    /// What the solver's exact contract means here: the solutions of this
    /// puzzle are exactly the completed grids — one digit per cell, the clues
    /// kept, and no digit repeated within a row, a column or a box.
    pub fn solution_characterization(&self)
        ensures
            forall|a: Seq<u64>|
                #[trigger] is_solution(self, a) <==> sudoku_solution_ok(
                    self.spec_initial_board(),
                    a,
                ),
    {
        proof {
            use_type_invariant(self);
            let clues = self.spec_initial_board();
            assert forall|a: Seq<u64>|
                #[trigger] is_solution(self, a) <==> sudoku_solution_ok(clues, a) by {
                if is_solution(self, a) {
                    assert forall|k: int| 0 <= k < 81 implies 1 <= #[trigger] a[k] <= 9 by {
                        assert(self.spec_domains()[k].contains(a[k]));
                        let t = choose|t: int|
                            0 <= t < digit_values().len() && digit_values()[t] == a[k];
                    }
                    assert forall|y: int, x: int|
                        0 <= y < 9 && 0 <= x < 9 && clues[y]@[x] is Some implies #[trigger] a[y * 9
                        + x] == clues[y]@[x]->0@ by {
                        let k = y * 9 + x;
                        assert(k / 9 == y && k % 9 == x);
                        assert(self.spec_initial()[k] is Some);
                        assert(Some(a[k]) == self.spec_initial()[k]);
                    }
                    assert forall|k1: int, k2: int|
                        0 <= k1 < 81 && 0 <= k2 < 81 && k1 != k2 && #[trigger] same_unit(k1, k2)
                        implies a[k1] != a[k2] by {
                        let j = choose|j: int|
                            0 <= j < self.constraints@.len() && (((
                            #[trigger] self.constraints@[j]).cell_a == k1
                                && self.constraints@[j].cell_b == k2) || (
                            self.constraints@[j].cell_a == k2 && self.constraints@[j].cell_b
                                == k1));
                        assert(self.spec_constraints()[j].sat(lift(a)));
                        assert(lift(a)[k1] == Some(a[k1]));
                        assert(lift(a)[k2] == Some(a[k2]));
                    }
                    assert(sudoku_solution_ok(clues, a));
                }
                if sudoku_solution_ok(clues, a) {
                    assert forall|i: int|
                        0 <= i < a.len() implies (#[trigger] self.spec_domains()[i]).contains(
                        a[i]) by {
                        assert(digit_values()[a[i] - 1] == a[i]);
                    }
                    assert(agrees(a, self.spec_initial())) by {
                        assert forall|k: int|
                            0 <= k < 81 && self.spec_initial()[k] is Some implies Some(a[k])
                            == self.spec_initial()[k] by {
                            let y = k / 9;
                            let x = k % 9;
                            assert(clues[y]@[x] is Some);
                            assert(a[y * 9 + x] == clues[y]@[x]->0@);
                            assert(y * 9 + x == k);
                        }
                    }
                    assert(all_sat(self.spec_constraints(), lift(a))) by {
                        assert forall|j: int|
                            0 <= j < self.spec_constraints().len() implies (
                        #[trigger] self.spec_constraints()[j]).sat(lift(a)) by {
                            let c = self.constraints@[j];
                            assert(c.valid(81));
                            assert(same_unit(c.cell_a as int, c.cell_b as int));
                            assert(a[c.cell_a as int] != a[c.cell_b as int]);
                            assert(lift(a)[c.cell_a as int] == Some(a[c.cell_a as int]));
                            assert(lift(a)[c.cell_b as int] == Some(a[c.cell_b as int]));
                        }
                    }
                    assert(is_solution(self, a));
                }
            }
        }
    }

    /// The puzzle built from a 9-by-9 clue grid (`None` for a grid of any
    /// other shape), keeping the grid as given.
    #[verifier::rlimit(60)]
    pub fn new(initial_board: Vec<Vec<Option<Number>>>) -> (r: Option<Sudoku>)
        ensures
            (r is Some) <==> (initial_board@.len() == 9 && (forall|y: int|
                0 <= y < 9 ==> (#[trigger] initial_board@[y])@.len() == 9)),
            r matches Some(s) ==> s.spec_initial_board() == initial_board@,
    {
        if initial_board.len() != 9 {
            return None;
        }
        let mut y: usize = 0;
        while y < 9
            invariant
                y <= 9,
                initial_board@.len() == 9,
                forall|t: int| 0 <= t < y ==> (#[trigger] initial_board@[t])@.len() == 9,
            decreases 9 - y,
        {
            if initial_board[y].len() != 9 {
                return None;
            }
            y = y + 1;
        }
        let board = make_rows_of_cells();
        // index grid: cell (x, y) is variable y * 9 + x
        let mut idx: Vec<Vec<usize>> = Vec::new();
        let mut y2: usize = 0;
        while y2 < 9
            invariant
                y2 <= 9,
                idx@.len() == y2,
                forall|t: int| 0 <= t < y2 ==> (#[trigger] idx@[t])@.len() == 9,
                forall|t: int, x: int|
                    0 <= t < y2 && 0 <= x < 9 ==> (#[trigger] idx@[t]@[x]) == t * 9 + x,
            decreases 9 - y2,
        {
            let mut row: Vec<usize> = Vec::new();
            let mut x: usize = 0;
            while x < 9
                invariant
                    x <= 9,
                    y2 < 9,
                    row@.len() == x,
                    forall|t: int| 0 <= t < x ==> (#[trigger] row@[t]) == y2 * 9 + t,
                decreases 9 - x,
            {
                row.push(y2 * 9 + x);
                x = x + 1;
            }
            idx.push(row);
            y2 = y2 + 1;
        }
        let mut constraints: Vec<Unique> = Vec::new();
        let groups_rows = group_board_by_rows(&idx);
        add_group_constraints(&mut constraints, &groups_rows);
        let ghost after_rows = constraints@;
        let groups_columns = group_board_by_columns(&idx);
        add_group_constraints(&mut constraints, &groups_columns);
        let ghost after_columns = constraints@;
        let groups_boxes = group_board_by_boxes(&idx);
        add_group_constraints(&mut constraints, &groups_boxes);
        proof {
            assert forall|g: int, i: int|
                0 <= g < 9 && 0 <= i < 9 implies (#[trigger] groups_rows@[g]@[i]) == g * 9
                + i by {
                assert(groups_rows@[g]@[i] == idx@[g]@[i]);
            }
            assert forall|g: int, i: int|
                0 <= g < 9 && 0 <= i < 9 implies (#[trigger] groups_columns@[g]@[i]) == i * 9
                + g by {
                assert(groups_columns@[g]@[i] == idx@[i]@[g]);
            }
            assert forall|g: int, i: int|
                0 <= g < 9 && 0 <= i < 9 implies (#[trigger] groups_boxes@[g]@[i]) == ((g / 3) * 3
                + i / 3) * 9 + (g % 3) * 3 + i % 3 by {
                assert(groups_boxes@[g]@[i] == idx@[(g / 3) * 3 + i / 3]@[(g % 3) * 3 + i % 3]);
            }
            lemma_sudoku_constraints_sound(
                groups_rows@,
                groups_columns@,
                groups_boxes@,
                after_rows,
                after_columns,
                constraints@,
            );
            lemma_sudoku_constraints_complete(
                groups_rows@,
                groups_columns@,
                groups_boxes@,
                constraints@,
            );
        }
        Some(Sudoku { board, initial_board, constraints })
    }
}

/// The arithmetic of one box slot: where slot `s` of box `g` sits on the
/// grid, and that the resulting variable index is back in the same box.
proof fn lemma_box_slot(g: int, s: int)
    requires
        0 <= g < 9,
        0 <= s < 9,
    ensures
        ({
            let e = ((g / 3) * 3 + s / 3) * 9 + (g % 3) * 3 + s % 3;
            &&& 0 <= e < 81
            &&& e / 27 == g / 3
            &&& (e % 9) / 3 == g % 3
            &&& e / 9 == (g / 3) * 3 + s / 3
            &&& e % 9 == (g % 3) * 3 + s % 3
        }),
{
    let y = (g / 3) * 3 + s / 3;
    let x = (g % 3) * 3 + s % 3;
    let e = y * 9 + x;
    assert(0 <= y < 9);
    assert(0 <= x < 9);
    assert(e / 9 == y && e % 9 == x) by (nonlinear_arith)
        requires
            0 <= y < 9,
            0 <= x < 9,
            e == y * 9 + x,
    ;
    assert(e == 27 * (y / 3) + 9 * (y % 3) + x);
    assert(e / 27 == y / 3) by (nonlinear_arith)
        requires
            e == 27 * (y / 3) + 9 * (y % 3) + x,
            0 <= y % 3 < 3,
            0 <= x < 9,
            0 <= y / 3,
    ;
    assert(y / 3 == g / 3);
    assert(x / 3 == g % 3);
}


/// Every constraint built from the row, column and box groups links two cells
/// of one unit.
proof fn lemma_sudoku_constraints_sound(
    groups_rows: Seq<Vec<usize>>,
    groups_columns: Seq<Vec<usize>>,
    groups_boxes: Seq<Vec<usize>>,
    after_rows: Seq<Unique>,
    after_columns: Seq<Unique>,
    constraints: Seq<Unique>,
)
    requires
        groups_rows.len() == 9,
        groups_columns.len() == 9,
        groups_boxes.len() == 9,
        forall|g: int| 0 <= g < 9 ==> (#[trigger] groups_rows[g])@.len() == 9,
        forall|g: int| 0 <= g < 9 ==> (#[trigger] groups_columns[g])@.len() == 9,
        forall|g: int| 0 <= g < 9 ==> (#[trigger] groups_boxes[g])@.len() == 9,
        forall|g: int, i: int|
            0 <= g < 9 && 0 <= i < 9 ==> (#[trigger] groups_rows[g]@[i]) == g * 9 + i,
        forall|g: int, i: int|
            0 <= g < 9 && 0 <= i < 9 ==> (#[trigger] groups_columns[g]@[i]) == i * 9 + g,
        forall|g: int, i: int|
            0 <= g < 9 && 0 <= i < 9 ==> (#[trigger] groups_boxes[g]@[i]) == ((g / 3) * 3 + i / 3)
                * 9 + (g % 3) * 3 + i % 3,
        after_rows.len() <= after_columns.len() <= constraints.len(),
        forall|j: int| 0 <= j < after_rows.len() ==> constraints[j] == after_rows[j],
        forall|j: int| 0 <= j < after_columns.len() ==> constraints[j] == after_columns[j],
        forall|j: int|
            0 <= j < after_rows.len() ==> pair_in_groups(groups_rows, #[trigger] after_rows[j]),
        forall|j: int|
            after_rows.len() <= j < after_columns.len() ==> pair_in_groups(
                groups_columns,
                #[trigger] after_columns[j],
            ),
        forall|j: int|
            after_columns.len() <= j < constraints.len() ==> pair_in_groups(
                groups_boxes,
                #[trigger] constraints[j],
            ),
    ensures
        forall|j: int|
            0 <= j < constraints.len() ==> same_unit(
                (#[trigger] constraints[j]).cell_a as int,
                constraints[j].cell_b as int,
            ),
{
    assert forall|j: int| 0 <= j < constraints.len() implies same_unit(
        (#[trigger] constraints[j]).cell_a as int,
        constraints[j].cell_b as int,
    ) by {
        let c = constraints[j];
        if j < after_rows.len() {
            assert(pair_in_groups(groups_rows, c));
            let (g, i, t): (int, int, int) = choose|g: int, i: int, t: int|
                0 <= g < groups_rows.len() && 0 <= i < t < groups_rows[g]@.len() && (
                #[trigger] groups_rows[g]@[i]) == c.cell_a && (#[trigger] groups_rows[g]@[t])
                    == c.cell_b;
            assert(c.cell_a == g * 9 + i);
            assert(c.cell_b == g * 9 + t);
        } else if j < after_columns.len() {
            assert(pair_in_groups(groups_columns, c));
            let (g, i, t): (int, int, int) = choose|g: int, i: int, t: int|
                0 <= g < groups_columns.len() && 0 <= i < t < groups_columns[g]@.len() && (
                #[trigger] groups_columns[g]@[i]) == c.cell_a && (
                #[trigger] groups_columns[g]@[t]) == c.cell_b;
            assert(c.cell_a == i * 9 + g);
            assert(c.cell_b == t * 9 + g);
        } else {
            assert(pair_in_groups(groups_boxes, c));
            let (g, i, t): (int, int, int) = choose|g: int, i: int, t: int|
                0 <= g < groups_boxes.len() && 0 <= i < t < groups_boxes[g]@.len() && (
                #[trigger] groups_boxes[g]@[i]) == c.cell_a && (#[trigger] groups_boxes[g]@[t])
                    == c.cell_b;
            lemma_box_slot(g, i);
            lemma_box_slot(g, t);
            assert(c.cell_a == ((g / 3) * 3 + i / 3) * 9 + (g % 3) * 3 + i % 3);
            assert(c.cell_b == ((g / 3) * 3 + t / 3) * 9 + (g % 3) * 3 + t % 3);
        }
    }
}

/// The box and slot a cell index falls into, and that they lead back to it.
proof fn lemma_box_of_cell(k: int)
    requires
        0 <= k < 81,
    ensures
        ({
            let g = (k / 27) * 3 + (k % 9) / 3;
            let s = ((k / 9) % 3) * 3 + (k % 9) % 3;
            &&& 0 <= g < 9
            &&& 0 <= s < 9
            &&& ((g / 3) * 3 + s / 3) * 9 + (g % 3) * 3 + s % 3 == k
        }),
{
    let g = (k / 27) * 3 + (k % 9) / 3;
    let s = ((k / 9) % 3) * 3 + (k % 9) % 3;
    assert(k == (k / 9) * 9 + k % 9);
    assert(k / 9 == (k / 27) * 3 + (k / 9) % 3) by (nonlinear_arith)
        requires
            0 <= k < 81,
    ;
    assert(g / 3 == k / 27 && g % 3 == (k % 9) / 3) by (nonlinear_arith)
        requires
            g == (k / 27) * 3 + (k % 9) / 3,
            0 <= (k % 9) / 3 < 3,
            0 <= k / 27,
    ;
    assert(s / 3 == (k / 9) % 3 && s % 3 == (k % 9) % 3) by (nonlinear_arith)
        requires
            s == ((k / 9) % 3) * 3 + (k % 9) % 3,
            0 <= (k % 9) % 3 < 3,
            0 <= (k / 9) % 3,
    ;
    assert((g / 3) * 3 + s / 3 == k / 9);
    assert((g % 3) * 3 + s % 3 == ((k % 9) / 3) * 3 + (k % 9) % 3);
    assert(((k % 9) / 3) * 3 + (k % 9) % 3 == k % 9) by (nonlinear_arith)
        requires
            0 <= k % 9 < 9,
    ;
}

/// Every pair of distinct cells of one unit is linked by some constraint.
proof fn lemma_sudoku_constraints_complete(
    groups_rows: Seq<Vec<usize>>,
    groups_columns: Seq<Vec<usize>>,
    groups_boxes: Seq<Vec<usize>>,
    constraints: Seq<Unique>,
)
    requires
        groups_rows.len() == 9,
        groups_columns.len() == 9,
        groups_boxes.len() == 9,
        forall|g: int| 0 <= g < 9 ==> (#[trigger] groups_rows[g])@.len() == 9,
        forall|g: int| 0 <= g < 9 ==> (#[trigger] groups_columns[g])@.len() == 9,
        forall|g: int| 0 <= g < 9 ==> (#[trigger] groups_boxes[g])@.len() == 9,
        forall|g: int, i: int|
            0 <= g < 9 && 0 <= i < 9 ==> (#[trigger] groups_rows[g]@[i]) == g * 9 + i,
        forall|g: int, i: int|
            0 <= g < 9 && 0 <= i < 9 ==> (#[trigger] groups_columns[g]@[i]) == i * 9 + g,
        forall|g: int, i: int|
            0 <= g < 9 && 0 <= i < 9 ==> (#[trigger] groups_boxes[g]@[i]) == ((g / 3) * 3 + i / 3)
                * 9 + (g % 3) * 3 + i % 3,
        forall|g: int, i: int, j: int|
            0 <= g < 9 && 0 <= i < j < groups_rows[g]@.len() && (#[trigger] groups_rows[g]@[i])
                < 81 && (#[trigger] groups_rows[g]@[j]) < 81 && groups_rows[g]@[i]
                != groups_rows[g]@[j] ==> constraints.contains(
                (Unique { cell_a: groups_rows[g]@[i], cell_b: groups_rows[g]@[j] }),
            ),
        forall|g: int, i: int, j: int|
            0 <= g < 9 && 0 <= i < j < groups_columns[g]@.len() && (
            #[trigger] groups_columns[g]@[i]) < 81 && (#[trigger] groups_columns[g]@[j]) < 81
                && groups_columns[g]@[i] != groups_columns[g]@[j] ==> constraints.contains(
                (Unique { cell_a: groups_columns[g]@[i], cell_b: groups_columns[g]@[j] }),
            ),
        forall|g: int, i: int, j: int|
            0 <= g < 9 && 0 <= i < j < groups_boxes[g]@.len() && (#[trigger] groups_boxes[g]@[i])
                < 81 && (#[trigger] groups_boxes[g]@[j]) < 81 && groups_boxes[g]@[i]
                != groups_boxes[g]@[j] ==> constraints.contains(
                (Unique { cell_a: groups_boxes[g]@[i], cell_b: groups_boxes[g]@[j] }),
            ),
    ensures
        forall|k1: int, k2: int|
            0 <= k1 < 81 && 0 <= k2 < 81 && k1 != k2 && #[trigger] same_unit(k1, k2)
                ==> exists|j: int|
                0 <= j < constraints.len() && (((#[trigger] constraints[j]).cell_a == k1
                    && constraints[j].cell_b == k2) || (constraints[j].cell_a == k2
                    && constraints[j].cell_b == k1)),
{
    assert forall|k1: int, k2: int|
        0 <= k1 < 81 && 0 <= k2 < 81 && k1 != k2 && #[trigger] same_unit(k1, k2)
        implies exists|j: int|
        0 <= j < constraints.len() && (((#[trigger] constraints[j]).cell_a == k1
            && constraints[j].cell_b == k2) || (constraints[j].cell_a == k2 && constraints[
        j].cell_b == k1)) by {
        let lo = if k1 < k2 {
            k1
        } else {
            k2
        };
        let hi = if k1 < k2 {
            k2
        } else {
            k1
        };
        let c = if k1 / 9 == k2 / 9 {
            let g = k1 / 9;
            assert(groups_rows[g]@[lo % 9] == g * 9 + lo % 9);
            assert(g * 9 + lo % 9 == lo);
            assert(groups_rows[g]@[hi % 9] == hi);
            assert(lo % 9 < hi % 9);
            assert(constraints.contains(
                (Unique { cell_a: (lo as usize), cell_b: (hi as usize) }),
            ));
            Unique { cell_a: lo as usize, cell_b: hi as usize }
        } else if k1 % 9 == k2 % 9 {
            let g = k1 % 9;
            assert(groups_columns[g]@[lo / 9] == (lo / 9) * 9 + g);
            assert((lo / 9) * 9 + g == lo);
            assert(groups_columns[g]@[hi / 9] == hi);
            assert(lo / 9 < hi / 9);
            assert(constraints.contains(
                (Unique { cell_a: (lo as usize), cell_b: (hi as usize) }),
            ));
            Unique { cell_a: lo as usize, cell_b: hi as usize }
        } else {
            let g = (lo / 27) * 3 + (lo % 9) / 3;
            let s_lo = ((lo / 9) % 3) * 3 + (lo % 9) % 3;
            let s_hi = ((hi / 9) % 3) * 3 + (hi % 9) % 3;
            lemma_box_of_cell(lo);
            lemma_box_of_cell(hi);
            assert(g == (hi / 27) * 3 + (hi % 9) / 3);
            assert(groups_boxes[g]@[s_lo] == lo);
            assert(groups_boxes[g]@[s_hi] == hi);
            assert(s_lo != s_hi);
            if s_lo < s_hi {
                assert(constraints.contains(
                    (Unique { cell_a: (lo as usize), cell_b: (hi as usize) }),
                ));
                Unique { cell_a: lo as usize, cell_b: hi as usize }
            } else {
                assert(constraints.contains(
                    (Unique { cell_a: (hi as usize), cell_b: (lo as usize) }),
                ));
                Unique { cell_a: hi as usize, cell_b: lo as usize }
            }
        };
        let t = choose|t: int| 0 <= t < constraints.len() && constraints[t] == c;
        assert((constraints[t].cell_a == k1 && constraints[t].cell_b == k2) || (
        constraints[t].cell_a == k2 && constraints[t].cell_b == k1));
    }
}

/// Whether the pair of `c` stands, in order, somewhere in one of the groups.
pub open spec fn pair_in_groups(groups: Seq<Vec<usize>>, c: Unique) -> bool {
    exists|g: int, i: int, j: int|
        0 <= g < groups.len() && 0 <= i < j < groups[g]@.len() && #[trigger] groups[g]@[i]
            == c.cell_a && #[trigger] groups[g]@[j] == c.cell_b
}

/// Adds one `Unique` constraint per pair of distinct in-range cells of each
/// group, skipping pairs already present: afterwards every such pair is
/// present, and nothing else was added.
fn add_group_constraints(constraints: &mut Vec<Unique>, groups: &Vec<Vec<usize>>)
    requires
        crate::csp::all_valid(old(constraints)@, 81),
    ensures
        crate::csp::all_valid(final(constraints)@, 81),
        forall|t: int|
            0 <= t < old(constraints)@.len() ==> final(constraints)@[t] == old(constraints)@[t],
        final(constraints)@.len() >= old(constraints)@.len(),
        forall|t: int|
            old(constraints)@.len() <= t < final(constraints)@.len() ==> pair_in_groups(
                groups@,
                #[trigger] final(constraints)@[t],
            ),
        forall|g: int, i: int, j: int|
            0 <= g < groups@.len() && 0 <= i < j < groups@[g]@.len() && (#[trigger] groups@[
                g]@[i]) < 81 && (#[trigger] groups@[g]@[j]) < 81 && groups@[g]@[i] != groups@[
                g]@[j] ==> final(constraints)@.contains(
                (Unique { cell_a: groups@[g]@[i], cell_b: groups@[g]@[j] }),
            ),
{
    let ghost original = constraints@;
    let mut g: usize = 0;
    while g < groups.len()
        invariant
            g <= groups@.len(),
            crate::csp::all_valid(constraints@, 81),
            constraints@.len() >= original.len(),
            forall|t: int| 0 <= t < original.len() ==> constraints@[t] == original[t],
            forall|t: int|
                original.len() <= t < constraints@.len() ==> pair_in_groups(
                    groups@,
                    #[trigger] constraints@[t],
                ),
            forall|g2: int, i2: int, j2: int|
                0 <= g2 < g && 0 <= i2 < j2 < groups@[g2]@.len() && (#[trigger] groups@[
                    g2]@[i2]) < 81 && (#[trigger] groups@[g2]@[j2]) < 81 && groups@[g2]@[i2]
                    != groups@[g2]@[j2] ==> constraints@.contains(
                    (Unique { cell_a: groups@[g2]@[i2], cell_b: groups@[g2]@[j2] }),
                ),
        decreases groups@.len() - g,
    {
        let group = &groups[g];
        let mut i: usize = 0;
        while i < group.len()
            invariant
                i <= group@.len(),
                group == &groups@[g as int],
                g < groups@.len(),
                crate::csp::all_valid(constraints@, 81),
                constraints@.len() >= original.len(),
                forall|t: int| 0 <= t < original.len() ==> constraints@[t] == original[t],
                forall|t: int|
                    original.len() <= t < constraints@.len() ==> pair_in_groups(
                        groups@,
                        #[trigger] constraints@[t],
                    ),
                forall|g2: int, i2: int, j2: int|
                    0 <= g2 < g && 0 <= i2 < j2 < groups@[g2]@.len() && (#[trigger] groups@[
                        g2]@[i2]) < 81 && (#[trigger] groups@[g2]@[j2]) < 81 && groups@[g2]@[i2]
                        != groups@[g2]@[j2] ==> constraints@.contains(
                        (Unique { cell_a: groups@[g2]@[i2], cell_b: groups@[g2]@[j2] }),
                    ),
                forall|i2: int, j2: int|
                    0 <= i2 < i && i2 < j2 < group@.len() && (#[trigger] group@[i2]) < 81 && (
                    #[trigger] group@[j2]) < 81 && group@[i2] != group@[j2]
                        ==> constraints@.contains(
                        Unique { cell_a: group@[i2], cell_b: group@[j2] },
                    ),
            decreases group@.len() - i,
        {
            let mut j: usize = i + 1;
            while j < group.len()
                invariant
                    i < j,
                    j <= group@.len(),
                    i < group@.len(),
                    group == &groups@[g as int],
                    g < groups@.len(),
                    crate::csp::all_valid(constraints@, 81),
                    constraints@.len() >= original.len(),
                    forall|t: int| 0 <= t < original.len() ==> constraints@[t] == original[t],
                    forall|t: int|
                        original.len() <= t < constraints@.len() ==> pair_in_groups(
                            groups@,
                            #[trigger] constraints@[t],
                        ),
                    forall|g2: int, i2: int, j2: int|
                        0 <= g2 < g && 0 <= i2 < j2 < groups@[g2]@.len() && (#[trigger] groups@[
                            g2]@[i2]) < 81 && (#[trigger] groups@[g2]@[j2]) < 81 && groups@[
                            g2]@[i2] != groups@[g2]@[j2] ==> constraints@.contains(
                            (Unique { cell_a: groups@[g2]@[i2], cell_b: groups@[g2]@[j2] }),
                        ),
                    forall|i2: int, j2: int|
                        0 <= i2 < i && i2 < j2 < group@.len() && (#[trigger] group@[i2]) < 81 && (
                        #[trigger] group@[j2]) < 81 && group@[i2] != group@[j2]
                            ==> constraints@.contains(
                            Unique { cell_a: group@[i2], cell_b: group@[j2] },
                        ),
                    forall|j2: int|
                        i < j2 < j && (#[trigger] group@[j2]) < 81 && group@[i as int] < 81
                            && group@[i as int] != group@[j2] ==> constraints@.contains(
                            Unique { cell_a: group@[i as int], cell_b: group@[j2] },
                        ),
                decreases group@.len() - j,
            {
                let ghost before = constraints@;
                let a = group[i];
                let b = group[j];
                if a < 81 && b < 81 && a != b {
                    let c = Unique { cell_a: a, cell_b: b };
                    if !contains_unique(constraints, c) {
                        constraints.push(c);
                        proof {
                            assert(pair_in_groups(groups@, c)) by {
                                assert(0 <= g < groups@.len() && 0 <= i < j < groups@[
                                    g as int]@.len() && groups@[g as int]@[i as int] == c.cell_a
                                    && groups@[g as int]@[j as int] == c.cell_b);
                            }
                        }
                    }
                    proof {
                        assert(constraints@.contains(c)) by {
                            if before.contains(c) {
                                let t = choose|t: int| 0 <= t < before.len() && before[t] == c;
                                assert(constraints@[t] == c);
                            } else {
                                assert(constraints@[constraints@.len() - 1] == c);
                            }
                        }
                    }
                }
                proof {
                    assert forall|x: Unique| #[trigger] before.contains(x) implies
                        constraints@.contains(x) by {
                        let t = choose|t: int| 0 <= t < before.len() && before[t] == x;
                        assert(constraints@[t] == x);
                    }
                }
                j = j + 1;
            }
            i = i + 1;
        }
        g = g + 1;
    }
}

impl CSP for Sudoku {
    type Constraint = Unique;

    open spec fn spec_domains(&self) -> Seq<Seq<u64>> {
        Seq::new(81, |k: int| digit_values())
    }

    open spec fn spec_initial(&self) -> Seq<Option<u64>> {
        Seq::new(
            81,
            |k: int|
                match self.spec_initial_board()[k / 9]@[k % 9] {
                    Some(d) => Some(d@),
                    None => None,
                },
        )
    }

    closed spec fn spec_constraints(&self) -> Seq<Unique> {
        self.constraints@
    }

    fn num_variables(&self) -> (n: usize) {
        81
    }

    fn domains(&self) -> (r: Vec<Vec<u64>>) {
        let mut r: Vec<Vec<u64>> = Vec::new();
        let mut k: usize = 0;
        while k < 81
            invariant
                k <= 81,
                r@.len() == k,
                forall|t: int| 0 <= t < k ==> (#[trigger] r@[t])@ == digit_values(),
            decreases 81 - k,
        {
            r.push(digit_vec());
            k = k + 1;
        }
        r
    }

    fn initial_assignments(&self) -> (r: Vec<Option<u64>>) {
        proof {
            use_type_invariant(self);
        }
        let mut r: Vec<Option<u64>> = Vec::new();
        let mut k: usize = 0;
        while k < 81
            invariant
                k <= 81,
                r@.len() == k,
                self.spec_initial_board().len() == 9,
                forall|y: int|
                    0 <= y < 9 ==> (#[trigger] self.spec_initial_board()[y])@.len() == 9,
                forall|t: int| 0 <= t < k ==> (#[trigger] r@[t]) == self.spec_initial()[t],
            decreases 81 - k,
        {
            let entry = match self.initial_board[k / 9][k % 9] {
                Some(n) => Some(n.value()),
                None => None,
            };
            r.push(entry);
            k = k + 1;
        }
        proof {
            assert(r@ =~= self.spec_initial());
        }
        r
    }

    fn constraints(&self) -> (r: &Vec<Unique>) {
        &self.constraints
    }
}

/// A solved grid: the digit chosen for each cell.
#[derive(Eq, PartialEq, Hash, Clone, Debug)]
pub struct SudokuSolution {
    pub board: Vec<Vec<Number>>,
}

impl Solution<Sudoku> for SudokuSolution {
    /// The output grid is 9 by 9 and holds, at `(x, y)`, the digit the
    /// assignment chose for variable `y * 9 + x`.
    open spec fn is_construction(problem: &Sudoku, env: Seq<u64>, s: SudokuSolution) -> bool {
        &&& s.board@.len() == 9
        &&& forall|y: int| 0 <= y < 9 ==> (#[trigger] s.board@[y])@.len() == 9
        &&& forall|y: int, x: int|
            0 <= y < 9 && 0 <= x < 9 ==> (#[trigger] s.board@[y]@[x])@ == env[y * 9 + x]
    }

    fn construct(problem: &Sudoku, env: &Vec<u64>) -> (r: Self) {
        proof {
            assert(env@.len() == 81);
            assert forall|k: int| 0 <= k < 81 implies 1 <= #[trigger] env@[k] <= 9 by {
                assert(problem.spec_domains()[k].contains(env@[k]));
                let t = choose|t: int|
                    0 <= t < digit_values().len() && digit_values()[t] == env@[k];
            }
        }
        let mut board: Vec<Vec<Number>> = Vec::new();
        let mut y: usize = 0;
        while y < 9
            invariant
                y <= 9,
                env@.len() == 81,
                forall|k: int| 0 <= k < 81 ==> 1 <= (#[trigger] env@[k]) <= 9,
                board@.len() == y,
                forall|t: int| 0 <= t < y ==> (#[trigger] board@[t])@.len() == 9,
                forall|t: int, x: int|
                    0 <= t < y && 0 <= x < 9 ==> (#[trigger] board@[t]@[x])@ == env@[t * 9 + x],
            decreases 9 - y,
        {
            let mut row: Vec<Number> = Vec::new();
            let mut x: usize = 0;
            while x < 9
                invariant
                    x <= 9,
                    y < 9,
                    env@.len() == 81,
                    forall|k: int| 0 <= k < 81 ==> 1 <= (#[trigger] env@[k]) <= 9,
                    row@.len() == x,
                    forall|t: int|
                        0 <= t < x ==> (#[trigger] row@[t])@ == env@[y * 9 + t],
                decreases 9 - x,
            {
                let n = Number::from_value(env[y * 9 + x]).unwrap();
                row.push(n);
                x = x + 1;
            }
            board.push(row);
            y = y + 1;
        }
        SudokuSolution { board }
    }
}

} // verus!
