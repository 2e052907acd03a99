use vstd::prelude::*;

use crate::solvers::{ValueSelector, VariableSelector};

verus! {

/// Why a command-line name was refused.
#[derive(Debug)]
pub enum Error {
    InvalidAlgorithmName { name: String },
    InvalidVariableSelectorHeuristicName { name: String },
    InvalidValueSelectorHeuristicName { name: String },
}

/// Which of the two solvers to run.
#[derive(Clone, Copy, PartialEq, Eq, Structural, Debug)]
pub enum Algorithm {
    Backtracking,
    ForwardChecking,
}

impl Algorithm {
    /// The short name under which the algorithm is selected.
    pub fn code(&self) -> (r: &'static str)
        ensures
            self is Backtracking ==> r@ == "bt"@,
            self is ForwardChecking ==> r@ == "fc"@,
    {
        match self {
            Algorithm::Backtracking => "bt",
            Algorithm::ForwardChecking => "fc",
        }
    }
}

/// Which puzzle to solve, with the files that describe it.
pub enum Problem {
    Jolka { jolka_puzzle_path: String, jolka_words_path: String },
    Sudoku { sudoku_path: String, sudoku_id: String },
}

fn str_eq(a: &str, b: &str) -> (r: bool)
    ensures
        r == (a@ == b@),
{
    let la = a.unicode_len();
    let lb = b.unicode_len();
    if la != lb {
        return false;
    }
    let mut i: usize = 0;
    while i < la
        invariant
            i <= la,
            la == a@.len(),
            la == b@.len(),
            forall|t: int| 0 <= t < i ==> a@[t] == b@[t],
        decreases la - i,
    {
        if a.get_char(i) != b.get_char(i) {
            return false;
        }
        i = i + 1;
    }
    proof {
        assert(a@ =~= b@);
    }
    true
}

/// The algorithm chosen by its short name: `bt` or `fc`; any other name is
/// refused with the name itself.
pub fn parse_algorithm(source: &str) -> (r: Result<Algorithm, Error>)
    ensures
        source@ == "bt"@ ==> r == Ok::<Algorithm, Error>(Algorithm::Backtracking),
        source@ == "fc"@ ==> r == Ok::<Algorithm, Error>(Algorithm::ForwardChecking),
        (r is Err) <==> (source@ != "bt"@ && source@ != "fc"@),
        r matches Err(e) ==> (e matches Error::InvalidAlgorithmName { name } && name@ == source@),
{
    proof {
        reveal_strlit("bt");
        reveal_strlit("fc");
        assert("bt"@ != "fc"@) by {
            assert("bt"@[0] == 'b');
            assert("fc"@[0] == 'f');
        }
    }
    if str_eq(source, "bt") {
        Ok(Algorithm::Backtracking)
    } else if str_eq(source, "fc") {
        Ok(Algorithm::ForwardChecking)
    } else {
        Err(Error::InvalidAlgorithmName { name: source.to_owned() })
    }
}

/// The variable-selection heuristic chosen by its short name: `def`, `mcv` or
/// `rand`; any other name is refused with the name itself.
pub fn variable_selection_heuristic(source: &str) -> (r: Result<VariableSelector, Error>)
    ensures
        source@ == "def"@ ==> r == Ok::<VariableSelector, Error>(
            VariableSelector::OrderOfDefinition,
        ),
        source@ == "mcv"@ ==> r == Ok::<VariableSelector, Error>(
            VariableSelector::MostConstrainedVariable,
        ),
        source@ == "rand"@ ==> r == Ok::<VariableSelector, Error>(VariableSelector::Random),
        (r is Err) <==> (source@ != "def"@ && source@ != "mcv"@ && source@ != "rand"@),
        r matches Err(e) ==> (e matches Error::InvalidVariableSelectorHeuristicName { name }
            && name@ == source@),
{
    proof {
        reveal_strlit("def");
        reveal_strlit("mcv");
        reveal_strlit("rand");
        assert("def"@ != "mcv"@) by {
            assert("def"@[0] == 'd');
            assert("mcv"@[0] == 'm');
        }
        assert("def"@ != "rand"@ && "mcv"@ != "rand"@) by {
            assert("def"@.len() == 3);
            assert("mcv"@.len() == 3);
            assert("rand"@.len() == 4);
        }
    }
    if str_eq(source, "def") {
        Ok(VariableSelector::OrderOfDefinition)
    } else if str_eq(source, "mcv") {
        Ok(VariableSelector::MostConstrainedVariable)
    } else if str_eq(source, "rand") {
        Ok(VariableSelector::Random)
    } else {
        Err(Error::InvalidVariableSelectorHeuristicName { name: source.to_owned() })
    }
}

/// The value-selection heuristic chosen by its short name: `def`, `lcv` or
/// `rand`; any other name is refused with the name itself.  `lcv` parses, and
/// the solvers then refuse it as unimplemented.
pub fn value_selection_heuristic(source: &str) -> (r: Result<ValueSelector, Error>)
    ensures
        source@ == "def"@ ==> r == Ok::<ValueSelector, Error>(ValueSelector::OrderOfDefinition),
        source@ == "lcv"@ ==> r == Ok::<ValueSelector, Error>(
            ValueSelector::LeastConstrainingValue,
        ),
        source@ == "rand"@ ==> r == Ok::<ValueSelector, Error>(ValueSelector::Random),
        (r is Err) <==> (source@ != "def"@ && source@ != "lcv"@ && source@ != "rand"@),
        r matches Err(e) ==> (e matches Error::InvalidValueSelectorHeuristicName { name } && name@
            == source@),
{
    proof {
        reveal_strlit("def");
        reveal_strlit("lcv");
        reveal_strlit("rand");
        assert("def"@ != "lcv"@) by {
            assert("def"@[0] == 'd');
            assert("lcv"@[0] == 'l');
        }
        assert("def"@ != "rand"@ && "lcv"@ != "rand"@) by {
            assert("def"@.len() == 3);
            assert("lcv"@.len() == 3);
            assert("rand"@.len() == 4);
        }
    }
    if str_eq(source, "def") {
        Ok(ValueSelector::OrderOfDefinition)
    } else if str_eq(source, "lcv") {
        Ok(ValueSelector::LeastConstrainingValue)
    } else if str_eq(source, "rand") {
        Ok(ValueSelector::Random)
    } else {
        Err(Error::InvalidValueSelectorHeuristicName { name: source.to_owned() })
    }
}

} // verus!
