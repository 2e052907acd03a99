use vstd::prelude::*;

verus! {

// A constraint-satisfaction problem is modelled over plain values: variables
// are the indices `0 .. n`, candidate values are `u64`, and a partial
// assignment is a sequence of length `n` whose entry for an unassigned
// variable is `None`.

/// The complete assignment `a` viewed as a partial assignment.
pub open spec fn lift(a: Seq<u64>) -> Seq<Option<u64>> {
    Seq::new(a.len(), |i: int| Some(a[i]))
}

/// `b` assigns every variable that `a` assigns, to the same value.
pub open spec fn extends(b: Seq<Option<u64>>, a: Seq<Option<u64>>) -> bool {
    &&& b.len() == a.len()
    &&& forall|i: int| 0 <= i < a.len() && a[i] is Some ==> b[i] == a[i]
}

/// The complete assignment `a` agrees with the partial assignment `p` on
/// every variable that `p` assigns.
pub open spec fn agrees(a: Seq<u64>, p: Seq<Option<u64>>) -> bool {
    &&& a.len() == p.len()
    &&& forall|i: int| 0 <= i < p.len() && p[i] is Some ==> Some(a[i]) == p[i]
}

/// The partial assignment over `n` variables that fixes exactly variable `v`
/// to `x` and variable `w` to `y`.
pub open spec fn pair_assignment(n: nat, v: int, x: u64, w: int, y: u64) -> Seq<Option<u64>> {
    Seq::new(n, |i: int| if i == v { Some(x) } else if i == w { Some(y) } else { None })
}

/// A relation over (at most two of) the problem's variables.  A constraint
/// over a variable that is still unassigned holds vacuously, so a partial
/// assignment is never rejected merely for being incomplete.
pub trait Constraint: Sized {
    /// The constraint only mentions variables below `n`, and mentions two
    /// distinct variables (or fewer).
    spec fn valid(&self, n: nat) -> bool;

    /// Whether the relation holds of the partial assignment `a`.
    spec fn sat(&self, a: Seq<Option<u64>>) -> bool;

    /// Deciding `sat` on an explicit partial assignment.
    fn is_satisfied(&self, env: &Vec<Option<u64>>) -> (r: bool)
        requires
            self.valid(env@.len() as nat),
        ensures
            r == self.sat(env@),
    ;

    /// Remove from every other variable's domain each value that is already
    /// inconsistent with `variable` being fixed to `value`: afterwards the
    /// domain of `w` holds exactly the old values `y` for which the
    /// two-variable assignment `variable := value, w := y` satisfies the
    /// constraint.  A domain without duplicates stays without duplicates.
    fn prune(&self, domains: &mut Vec<Vec<u64>>, variable: usize, value: u64)
        requires
            self.valid(old(domains)@.len() as nat),
            variable < old(domains)@.len(),
        ensures
            final(domains)@.len() == old(domains)@.len(),
            final(domains)@[variable as int] == old(domains)@[variable as int],
            forall|w: int, y: u64|
                0 <= w < old(domains)@.len() && w != variable ==> ((#[trigger] final(
                    domains)@[w]@.contains(y)) <==> (old(domains)@[w]@.contains(y) && self.sat(
                    pair_assignment(old(domains)@.len() as nat, variable as int, value, w, y),
                ))),
            forall|w: int|
                0 <= w < old(domains)@.len() && w != variable && old(domains)@[w]@.no_duplicates()
                    ==> (#[trigger] final(domains)@[w]@).no_duplicates(),
    ;

    /// Satisfaction is monotone under un-assignment: if the relation holds of
    /// an extension, it holds of the smaller partial assignment as well (so a
    /// branch rejected on a partial assignment has no satisfying extension).
    proof fn lemma_sat_extends(&self, a: Seq<Option<u64>>, b: Seq<Option<u64>>)
        requires
            self.valid(a.len() as nat),
            extends(b, a),
            self.sat(b),
        ensures
            self.sat(a),
    ;

    /// Once the partial assignment `p` extended by `v := x` satisfies the
    /// constraint, extending it further by `w := y` satisfies the constraint
    /// exactly when `p` extended by `w := y` alone does and the two-variable
    /// assignment `v := x, w := y` does.  This is what makes one pruning pass
    /// per assignment equivalent to re-checking the constraint.
    proof fn lemma_pair_split(&self, p: Seq<Option<u64>>, v: int, x: u64, w: int, y: u64)
        requires
            self.valid(p.len() as nat),
            0 <= v < p.len(),
            0 <= w < p.len(),
            v != w,
            p[v] is None,
            p[w] is None,
            self.sat(p.update(v, Some(x))),
        ensures
            self.sat(p.update(v, Some(x)).update(w, Some(y))) <==> (self.sat(
                p.update(w, Some(y)),
            ) && self.sat(pair_assignment(p.len() as nat, v, x, w, y))),
    ;
}

/// Every constraint in `cs` holds of the partial assignment `p`.
pub open spec fn all_sat<C: Constraint>(cs: Seq<C>, p: Seq<Option<u64>>) -> bool {
    forall|j: int| 0 <= j < cs.len() ==> (#[trigger] cs[j]).sat(p)
}

/// Every constraint in `cs` only mentions variables below `n`.
pub open spec fn all_valid<C: Constraint>(cs: Seq<C>, n: nat) -> bool {
    forall|j: int| 0 <= j < cs.len() ==> (#[trigger] cs[j]).valid(n)
}

/// A problem instance: finitely many variables with their candidate values,
/// any pre-fixed assignments, and the constraints, together with the type
/// that a completed assignment is materialized into.
pub trait CSP: Sized {
    type Constraint: Constraint;

    /// The candidate values of each variable; the number of variables is the
    /// length of this sequence.
    spec fn spec_domains(&self) -> Seq<Seq<u64>>;

    /// The pre-fixed assignments, `None` for every free variable.
    spec fn spec_initial(&self) -> Seq<Option<u64>>;

    spec fn spec_constraints(&self) -> Seq<Self::Constraint>;

    fn num_variables(&self) -> (n: usize)
        ensures
            n == self.spec_domains().len(),
    ;

    fn domains(&self) -> (r: Vec<Vec<u64>>)
        ensures
            r@.len() == self.spec_domains().len(),
            forall|i: int| 0 <= i < r@.len() ==> r@[i]@ == self.spec_domains()[i],
    ;

    fn initial_assignments(&self) -> (r: Vec<Option<u64>>)
        ensures
            r@ == self.spec_initial(),
    ;

    fn constraints(&self) -> (r: &Vec<Self::Constraint>)
        ensures
            r@ == self.spec_constraints(),
    ;
}

/// What every solver relies on: the initial assignment covers the variables,
/// the constraints stay within the variables, and each domain is a set (no
/// value is listed twice).
pub open spec fn csp_wf<P: CSP>(p: &P) -> bool {
    &&& p.spec_initial().len() == p.spec_domains().len()
    &&& all_valid(p.spec_constraints(), p.spec_domains().len() as nat)
    &&& forall|i: int|
        0 <= i < p.spec_domains().len() ==> (#[trigger] p.spec_domains()[i]).no_duplicates()
}

/// The complete assignment `a` solves the problem: each variable gets a value
/// from its own domain, the pre-fixed variables keep their values, and every
/// constraint holds.
pub open spec fn is_solution<P: CSP>(p: &P, a: Seq<u64>) -> bool {
    &&& a.len() == p.spec_domains().len()
    &&& forall|i: int| 0 <= i < a.len() ==> (#[trigger] p.spec_domains()[i]).contains(a[i])
    &&& agrees(a, p.spec_initial())
    &&& all_sat(p.spec_constraints(), lift(a))
}

/// The materialization of one complete, constraint-satisfying assignment into
/// a domain-specific output value.
pub trait Solution<P: CSP>: Sized {
    /// `s` is the output that the complete assignment `env` of `problem`
    /// materializes into.
    spec fn is_construction(problem: &P, env: Seq<u64>, s: Self) -> bool;

    fn construct(problem: &P, env: &Vec<u64>) -> (r: Self)
        requires
            csp_wf(problem),
            is_solution(problem, env@),
        ensures
            Self::is_construction(problem, env@, r),
    ;
}

} // verus!
