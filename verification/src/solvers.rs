use rand::seq::SliceRandom;
use vstd::prelude::*;

use crate::csp::{
    agrees, all_sat, all_valid, csp_wf, extends, is_solution, lift, pair_assignment, Constraint,
    Solution, CSP,
};

verus! {

broadcast use vstd::seq_lib::group_to_multiset_ensures, vstd::seq_lib::group_filter_ensures;

/// Counters kept by one solver run.  Nodes are counted once per candidate
/// value tried at any level; backtracks once per candidate rejected, once per
/// exhausted level and once per solution leaf (the run's final return is not
/// counted).  The counters stick at `u64::MAX` instead of overflowing.
#[derive(Clone, Copy, PartialEq, Eq, Structural, Debug)]
pub struct Statistics {
    pub visited_nodes: u64,
    pub backtracks: u64,
    pub solutions_found: u64,
}

/// `c + 1`, sticking at the largest counter value.
pub open spec fn bumped(c: u64) -> u64 {
    if c < u64::MAX {
        (c + 1) as u64
    } else {
        c
    }
}

fn bump(c: u64) -> (r: u64)
    ensures
        r == bumped(c),
{
    if c < u64::MAX {
        c + 1
    } else {
        c
    }
}

impl Statistics {
    pub fn new() -> (r: Statistics)
        ensures
            r.visited_nodes == 0,
            r.backtracks == 0,
            r.solutions_found == 0,
    {
        Statistics { visited_nodes: 0, backtracks: 0, solutions_found: 0 }
    }

    fn count_visited_node(&mut self)
        ensures
            *final(self) == (Statistics { visited_nodes: bumped(old(self).visited_nodes), ..*old(self) }),
    {
        self.visited_nodes = bump(self.visited_nodes);
    }

    fn count_backtrack(&mut self)
        ensures
            *final(self) == (Statistics { backtracks: bumped(old(self).backtracks), ..*old(self) }),
    {
        self.backtracks = bump(self.backtracks);
    }

    fn count_solution(&mut self)
        ensures
            *final(self) == (Statistics { solutions_found: bumped(old(self).solutions_found), ..*old(self) }),
    {
        self.solutions_found = bump(self.solutions_found);
    }
}

/// A fixed sequence of candidates handed out from the front (or the back),
/// produced by the ordering heuristics.
pub struct Order<T> {
    source: Vec<T>,
    forward: usize,
    backward: usize,
}

impl<T> Order<T> {
    #[verifier::type_invariant]
    spec fn order_inv(&self) -> bool {
        self.backward <= self.source@.len()
    }
}

impl<T: Copy> Order<T> {
    /// The candidates, in the order the heuristic chose.
    pub closed spec fn elements(&self) -> Seq<T> {
        self.source@
    }

    /// How many candidates have been handed out from the front.
    pub closed spec fn cursor(&self) -> int {
        self.forward as int
    }

    /// The position just past the next candidate from the back.
    pub closed spec fn back_cursor(&self) -> int {
        self.backward as int
    }

    pub fn new(source: Vec<T>) -> (r: Order<T>)
        ensures
            r.elements() == source@,
            r.cursor() == 0,
            r.back_cursor() == source@.len(),
    {
        let size = source.len();
        Order { source, forward: 0, backward: size }
    }

    /// Whether a candidate is left at the front.
    pub fn has_next(&self) -> (b: bool)
        ensures
            b == (self.cursor() < self.elements().len()),
    {
        self.forward < self.source.len()
    }

    /// The next candidate from the front, or `None` once all are handed out.
    pub fn next(&mut self) -> (r: Option<T>)
        ensures
            final(self).elements() == old(self).elements(),
            final(self).back_cursor() == old(self).back_cursor(),
            if old(self).cursor() < old(self).elements().len() {
                &&& r == Some(old(self).elements()[old(self).cursor()])
                &&& final(self).cursor() == old(self).cursor() + 1
            } else {
                &&& r is None
                &&& final(self).cursor() == old(self).cursor()
            },
    {
        proof {
            use_type_invariant(&*self);
        }
        if self.forward < self.source.len() {
            let x = self.source[self.forward];
            self.forward = self.forward + 1;
            Some(x)
        } else {
            None
        }
    }

    /// The next candidate from the back, or `None` once all are handed out.
    pub fn next_back(&mut self) -> (r: Option<T>)
        ensures
            final(self).elements() == old(self).elements(),
            final(self).cursor() == old(self).cursor(),
            if old(self).back_cursor() > 0 {
                &&& r == Some(old(self).elements()[old(self).back_cursor() - 1])
                &&& final(self).back_cursor() == old(self).back_cursor() - 1
            } else {
                &&& r is None
                &&& final(self).back_cursor() == old(self).back_cursor()
            },
    {
        proof {
            use_type_invariant(&*self);
        }
        if self.backward > 0 {
            self.backward = self.backward - 1;
            Some(self.source[self.backward])
        } else {
            None
        }
    }
}

/// The indices of the unassigned variables of `p`, in ascending order.
pub open spec fn unassigned_seq(p: Seq<Option<u64>>) -> Seq<usize>
    decreases p.len(),
{
    if p.len() == 0 {
        Seq::empty()
    } else {
        let rest = unassigned_seq(p.drop_last());
        if p.last() is None {
            rest.push((p.len() - 1) as usize)
        } else {
            rest
        }
    }
}

/// How many variables `p` leaves unassigned; the measure that shrinks at each
/// recursion level of the solvers.
pub open spec fn num_unassigned(p: Seq<Option<u64>>) -> nat {
    unassigned_seq(p).len()
}

pub proof fn lemma_unassigned_seq_members(p: Seq<Option<u64>>)
    requires
        p.len() <= usize::MAX,
    ensures
        forall|k: int|
            0 <= k < unassigned_seq(p).len() ==> (#[trigger] unassigned_seq(p)[k]) < p.len() && p[
                unassigned_seq(p)[k] as int
            ] is None,
        forall|k1: int, k2: int|
            0 <= k1 < k2 < unassigned_seq(p).len() ==> unassigned_seq(p)[k1] < unassigned_seq(
                p,
            )[k2],
        forall|v: usize|
            v < p.len() && p[v as int] is None ==> #[trigger] unassigned_seq(p).contains(v),
    decreases p.len(),
{
    if p.len() > 0 {
        lemma_unassigned_seq_members(p.drop_last());
        let rest = unassigned_seq(p.drop_last());
        assert forall|k: int|
            0 <= k < unassigned_seq(p).len() implies (#[trigger] unassigned_seq(p)[k]) < p.len()
            && p[unassigned_seq(p)[k] as int] is None by {
            if k < rest.len() {
                assert(unassigned_seq(p)[k] == rest[k]);
                assert(p.drop_last()[rest[k] as int] is None);
                assert(p[rest[k] as int] == p.drop_last()[rest[k] as int]);
            }
        }
        assert forall|k1: int, k2: int|
            0 <= k1 < k2 < unassigned_seq(p).len() implies unassigned_seq(p)[k1] < unassigned_seq(
            p,
        )[k2] by {
            if k2 < rest.len() {
                assert(rest[k1] < rest[k2]);
            } else {
                assert(unassigned_seq(p)[k1] == rest[k1]);
                assert(rest[k1] < p.len() - 1);
            }
        }
        assert forall|v: usize| v < p.len() && p[v as int] is None implies #[trigger] unassigned_seq(
            p,
        ).contains(v) by {
            if v + 1 < p.len() {
                assert(p.drop_last()[v as int] is None);
                assert(unassigned_seq(p.drop_last()).contains(v));
                let k = choose|k: int|
                    0 <= k < unassigned_seq(p.drop_last()).len() && unassigned_seq(p.drop_last())[k]
                        == v;
                assert(unassigned_seq(p)[k] == v);
            } else {
                assert(unassigned_seq(p).last() == v);
            }
        }
    }
}

/// An empty unassigned sequence means every variable is assigned.
pub proof fn lemma_unassigned_seq_empty(p: Seq<Option<u64>>)
    requires
        p.len() <= usize::MAX,
    ensures
        (unassigned_seq(p).len() == 0) <==> (forall|i: int| 0 <= i < p.len() ==> p[i] is Some),
{
    lemma_unassigned_seq_members(p);
    if unassigned_seq(p).len() > 0 {
        let v = unassigned_seq(p)[0];
        assert(p[v as int] is None);
    } else {
        assert forall|i: int| 0 <= i < p.len() implies p[i] is Some by {
            if p[i] is None {
                assert(unassigned_seq(p).contains(i as usize));
            }
        }
    }
}

/// Assigning one unassigned variable shrinks the count of unassigned
/// variables by exactly one.
pub proof fn lemma_num_unassigned_update(p: Seq<Option<u64>>, v: int, x: u64)
    requires
        0 <= v < p.len(),
        p[v] is None,
    ensures
        num_unassigned(p.update(v, Some(x))) + 1 == num_unassigned(p),
    decreases p.len(),
{
    let q = p.update(v, Some(x));
    if v == p.len() - 1 {
        assert(q.drop_last() =~= p.drop_last());
    } else {
        assert(q.drop_last() =~= p.drop_last().update(v, Some(x)));
        lemma_num_unassigned_update(p.drop_last(), v, x);
    }
}

fn collect_unassigned(assignment: &Vec<Option<u64>>) -> (r: Vec<usize>)
    ensures
        r@ == unassigned_seq(assignment@),
        assignment@.len() <= usize::MAX,
{
    let mut r: Vec<usize> = Vec::new();
    let mut i: usize = 0;
    while i < assignment.len()
        invariant
            i <= assignment@.len(),
            r@ == unassigned_seq(assignment@.take(i as int)),
        decreases assignment@.len() - i,
    {
        proof {
            assert(assignment@.take(i + 1).drop_last() =~= assignment@.take(i as int));
        }
        if assignment[i].is_none() {
            r.push(i);
        }
        i = i + 1;
    }
    proof {
        assert(assignment@.take(assignment@.len() as int) =~= assignment@);
    }
    r
}

/// Ascending order on values.
pub open spec fn sorted_u64(s: Seq<u64>) -> bool {
    forall|i: int, j: int| 0 <= i < j < s.len() ==> s[i] <= s[j]
}

/// The most-constrained-variable order: ascending by current domain size,
/// ties broken by variable index.
pub open spec fn mcv_le(domains: Seq<Vec<u64>>, a: usize, b: usize) -> bool {
    ||| domains[a as int]@.len() < domains[b as int]@.len()
    ||| (domains[a as int]@.len() == domains[b as int]@.len() && a <= b)
}

pub open spec fn mcv_sorted(vars: Seq<usize>, domains: Seq<Vec<u64>>) -> bool {
    forall|i: int, j: int| 0 <= i < j < vars.len() ==> mcv_le(domains, vars[i], vars[j])
}

fn sort_values(values: Vec<u64>) -> (r: Vec<u64>)
    ensures
        r@.to_multiset() == values@.to_multiset(),
        sorted_u64(r@),
{
    let mut rest = values;
    let mut out: Vec<u64> = Vec::new();
    while rest.len() > 0
        invariant
            out@.to_multiset().add(rest@.to_multiset()) == values@.to_multiset(),
            sorted_u64(out@),
            forall|a: u64, b: u64|
                #[trigger] out@.contains(a) && #[trigger] rest@.contains(b) ==> a <= b,
        decreases rest@.len(),
    {
        let mut m: usize = 0;
        let mut k: usize = 1;
        while k < rest.len()
            invariant
                m < k <= rest@.len(),
                rest@.len() > 0,
                forall|t: int| 0 <= t < k ==> rest@[m as int] <= rest@[t],
            decreases rest@.len() - k,
        {
            if rest[k] < rest[m] {
                m = k;
            }
            k = k + 1;
        }
        let ghost rest0 = rest@;
        let ghost out0 = out@;
        let x = rest.remove(m);
        out.push(x);
        proof {
            assert(rest0.contains(x)) by {
                assert(rest0[m as int] == x);
            }
            assert(rest@.to_multiset() == rest0.to_multiset().remove(x));
            assert(rest0.to_multiset() =~= rest@.to_multiset().insert(x));
            assert(out@.to_multiset().add(rest@.to_multiset()) =~= values@.to_multiset());
            assert forall|b: u64| #[trigger] rest@.contains(b) implies rest0.contains(b) by {
                assert(rest@.to_multiset().count(b) > 0);
                assert(rest0.to_multiset().count(b) > 0);
            }
            assert forall|b: u64| #[trigger] rest0.contains(b) implies x <= b by {
                let t = choose|t: int| 0 <= t < rest0.len() && rest0[t] == b;
                assert(rest0[m as int] <= rest0[t]);
            }
            assert forall|i: int, j: int| 0 <= i < j < out@.len() implies out@[i] <= out@[j] by {
                if j == out@.len() - 1 {
                    assert(out0.contains(out0[i]));
                }
            }
            assert forall|a: u64, b: u64|
                #[trigger] out@.contains(a) && #[trigger] rest@.contains(b) implies a <= b by {
                assert(rest0.contains(b));
                let ia = choose|ia: int| 0 <= ia < out@.len() && out@[ia] == a;
                if ia < out0.len() {
                    assert(out0.contains(a));
                } else {
                    assert(a == x);
                }
            }
        }
    }
    proof {
        assert(rest@ =~= Seq::<u64>::empty());
        assert(out@.to_multiset().add(rest@.to_multiset()) =~= out@.to_multiset());
    }
    out
}

fn sort_vars_mcv(vars: Vec<usize>, domains: &Vec<Vec<u64>>) -> (r: Vec<usize>)
    requires
        forall|k: int| 0 <= k < vars@.len() ==> (#[trigger] vars@[k]) < domains@.len(),
    ensures
        r@.to_multiset() == vars@.to_multiset(),
        mcv_sorted(r@, domains@),
{
    let mut rest = vars;
    let mut out: Vec<usize> = Vec::new();
    while rest.len() > 0
        invariant
            out@.to_multiset().add(rest@.to_multiset()) == vars@.to_multiset(),
            forall|k: int| 0 <= k < rest@.len() ==> (#[trigger] rest@[k]) < domains@.len(),
            forall|k: int| 0 <= k < out@.len() ==> (#[trigger] out@[k]) < domains@.len(),
            mcv_sorted(out@, domains@),
            forall|a: usize, b: usize|
                #[trigger] out@.contains(a) && #[trigger] rest@.contains(b) ==> mcv_le(
                    domains@,
                    a,
                    b,
                ),
        decreases rest@.len(),
    {
        let mut m: usize = 0;
        let mut k: usize = 1;
        while k < rest.len()
            invariant
                m < k <= rest@.len(),
                rest@.len() > 0,
                forall|t: int| 0 <= t < rest@.len() ==> (#[trigger] rest@[t]) < domains@.len(),
                forall|t: int| 0 <= t < k ==> mcv_le(domains@, rest@[m as int], rest@[t]),
            decreases rest@.len() - k,
        {
            let cand = rest[k];
            let best = rest[m];
            let cand_len = domains[cand].len();
            let best_len = domains[best].len();
            if cand_len < best_len || (cand_len == best_len && cand < best) {
                m = k;
            }
            k = k + 1;
        }
        let ghost rest0 = rest@;
        let ghost out0 = out@;
        let x = rest.remove(m);
        out.push(x);
        proof {
            assert(rest0.contains(x)) by {
                assert(rest0[m as int] == x);
            }
            assert(rest@.to_multiset() == rest0.to_multiset().remove(x));
            assert(rest0.to_multiset() =~= rest@.to_multiset().insert(x));
            assert(out@.to_multiset().add(rest@.to_multiset()) =~= vars@.to_multiset());
            assert forall|b: usize| #[trigger] rest@.contains(b) implies rest0.contains(b) by {
                assert(rest@.to_multiset().count(b) > 0);
                assert(rest0.to_multiset().count(b) > 0);
            }
            assert forall|b: usize| #[trigger] rest0.contains(b) implies mcv_le(
                domains@,
                x,
                b,
            ) by {
                let t = choose|t: int| 0 <= t < rest0.len() && rest0[t] == b;
                assert(mcv_le(domains@, rest0[m as int], rest0[t]));
            }
            assert forall|i: int, j: int| 0 <= i < j < out@.len() implies mcv_le(
                domains@,
                out@[i],
                out@[j],
            ) by {
                if j == out@.len() - 1 {
                    assert(out0.contains(out0[i]));
                }
            }
            assert forall|a: usize, b: usize|
                #[trigger] out@.contains(a) && #[trigger] rest@.contains(b) implies mcv_le(
                domains@,
                a,
                b,
            ) by {
                assert(rest0.contains(b));
                let ia = choose|ia: int| 0 <= ia < out@.len() && out@[ia] == a;
                if ia < out0.len() {
                    assert(out0.contains(a));
                } else {
                    assert(a == x);
                }
            }
        }
    }
    proof {
        assert(rest@ =~= Seq::<usize>::empty());
        assert(out@.to_multiset().add(rest@.to_multiset()) =~= out@.to_multiset());
    }
    out
}

#[verifier::external_type_specification]
#[verifier::external_body]
pub struct ExStdRng(rand::rngs::StdRng);

/// The explicit source of randomness that the random heuristics draw from,
/// handed in by the caller so that runs can be reproduced.
pub struct RandomSource {
    rng: rand::rngs::StdRng,
}

impl RandomSource {
    /// Relies on rand's `SeedableRng::seed_from_u64`: a generator whose draws
    /// are determined by the seed alone.
    #[verifier::external_body]
    pub fn from_seed(seed: u64) -> (r: RandomSource) {
        RandomSource { rng: rand::SeedableRng::seed_from_u64(seed) }
    }

    /// Relies on rand's `SeedableRng::from_entropy`: a generator seeded from
    /// the operating system.
    #[verifier::external_body]
    pub fn from_entropy() -> (r: RandomSource) {
        RandomSource { rng: rand::SeedableRng::from_entropy() }
    }
}

/// Relies on rand's `SliceRandom::shuffle`: a Fisher-Yates pass of in-place
/// swaps driven by the given generator, so the slice afterwards holds the
/// same elements, permuted.  Nothing is assumed about which permutation comes
/// out.
#[verifier::external_body]
fn shuffle_vec<T>(v: &mut Vec<T>, random: &mut RandomSource)
    ensures
        final(v)@.to_multiset() == old(v)@.to_multiset(),
{
    v.shuffle(&mut random.rng);
}

/// Which unassigned variable to branch on next: the solver takes the first
/// variable of the produced order.
#[derive(Clone, Copy, PartialEq, Eq, Structural, Debug)]
pub enum VariableSelector {
    OrderOfDefinition,
    MostConstrainedVariable,
    Random,
}

impl VariableSelector {
    /// The short name under which the heuristic is selected.
    pub fn code(&self) -> (r: &'static str)
        ensures
            self is OrderOfDefinition ==> r@ == "def"@,
            self is MostConstrainedVariable ==> r@ == "mcv"@,
            self is Random ==> r@ == "rand"@,
    {
        match self {
            VariableSelector::OrderOfDefinition => "def",
            VariableSelector::MostConstrainedVariable => "mcv",
            VariableSelector::Random => "rand",
        }
    }

    /// The unassigned variables, ordered by this heuristic.  Every heuristic
    /// hands out each unassigned variable exactly once.
    pub fn variables(
        &self,
        domains: &Vec<Vec<u64>>,
        assignment: &Vec<Option<u64>>,
        random: &mut RandomSource,
    ) -> (r: Order<usize>)
        requires
            domains@.len() == assignment@.len(),
        ensures
            r.elements().to_multiset() == unassigned_seq(assignment@).to_multiset(),
            r.cursor() == 0,
            self is OrderOfDefinition ==> r.elements() == unassigned_seq(assignment@),
            self is MostConstrainedVariable ==> mcv_sorted(r.elements(), domains@),
    {
        let unassigned = collect_unassigned(assignment);
        match self {
            VariableSelector::OrderOfDefinition => Order::new(unassigned),
            VariableSelector::MostConstrainedVariable => {
                proof {
                    lemma_unassigned_seq_members(assignment@);
                }
                Order::new(sort_vars_mcv(unassigned, domains))
            },
            VariableSelector::Random => {
                let mut shuffled = unassigned;
                shuffle_vec(&mut shuffled, random);
                Order::new(shuffled)
            },
        }
    }
}

/// In what order to try the chosen variable's candidate values.  The
/// least-constraining-value heuristic is an open design point: no scoring
/// rule is defined for it, and the solvers refuse it up front rather than
/// silently fall back to another order.
#[derive(Clone, Copy, PartialEq, Eq, Structural, Debug)]
pub enum ValueSelector {
    OrderOfDefinition,
    LeastConstrainingValue,
    Random,
}

impl ValueSelector {
    /// The short name under which the heuristic is selected.
    pub fn code(&self) -> (r: &'static str)
        ensures
            self is OrderOfDefinition ==> r@ == "def"@,
            self is LeastConstrainingValue ==> r@ == "lcv"@,
            self is Random ==> r@ == "rand"@,
    {
        match self {
            ValueSelector::OrderOfDefinition => "def",
            ValueSelector::LeastConstrainingValue => "lcv",
            ValueSelector::Random => "rand",
        }
    }

    /// The candidate values of `variable`, ordered by this heuristic.  Every
    /// heuristic hands out each candidate exactly once.
    pub fn values(&self, variable: usize, domains: &Vec<Vec<u64>>, random: &mut RandomSource) -> (r:
        Order<u64>)
        requires
            variable < domains@.len(),
            !(self is LeastConstrainingValue),
        ensures
            r.elements().to_multiset() == domains@[variable as int]@.to_multiset(),
            r.cursor() == 0,
            self is OrderOfDefinition ==> sorted_u64(r.elements()),
    {
        let mut candidates: Vec<u64> = Vec::new();
        let domain = &domains[variable];
        let mut i: usize = 0;
        while i < domain.len()
            invariant
                i <= domain@.len(),
                candidates@ == domain@.take(i as int),
            decreases domain@.len() - i,
        {
            candidates.push(domain[i]);
            i = i + 1;
        }
        proof {
            assert(domain@.take(domain@.len() as int) =~= domain@);
        }
        match self {
            ValueSelector::OrderOfDefinition => Order::new(sort_values(candidates)),
            ValueSelector::LeastConstrainingValue => {
                // ruled out by the precondition: no scoring rule is defined
                proof {
                    assert(false);
                }
                Order::new(Vec::new())
            },
            ValueSelector::Random => {
                let mut shuffled = candidates;
                shuffle_vec(&mut shuffled, random);
                Order::new(shuffled)
            },
        }
    }
}

/// The set `s` of found assignments holds `a`.
pub open spec fn contains_assignment(s: Seq<Vec<u64>>, a: Seq<u64>) -> bool {
    exists|i: int| 0 <= i < s.len() && s[i]@ == a
}

/// No assignment is listed twice.
pub open spec fn distinct_assignments(s: Seq<Vec<u64>>) -> bool {
    forall|i: int, j: int| 0 <= i < j < s.len() ==> s[i]@ != s[j]@
}

/// The complete assignment `a` solves the branch rooted at the partial
/// assignment `partial`: it extends `partial`, draws every value from the
/// problem's own domains, and satisfies every constraint.
pub open spec fn branch_solution<C: Constraint>(
    domains: Seq<Vec<u64>>,
    constraints: Seq<C>,
    partial: Seq<Option<u64>>,
    a: Seq<u64>,
) -> bool {
    &&& a.len() == domains.len()
    &&& forall|i: int| 0 <= i < a.len() ==> (#[trigger] domains[i]@).contains(a[i])
    &&& agrees(a, partial)
    &&& all_sat(constraints, lift(a))
}

/// A permutation of a duplicate-free sequence is duplicate-free.
proof fn lemma_permutation_no_duplicates<T>(s1: Seq<T>, s2: Seq<T>)
    requires
        s1.to_multiset() == s2.to_multiset(),
        s1.no_duplicates(),
    ensures
        s2.no_duplicates(),
{
    s1.lemma_multiset_has_no_duplicates();
    s2.lemma_multiset_has_no_duplicates_conv();
}

pub(crate) fn clone_assignment(a: &Vec<Option<u64>>) -> (r: Vec<Option<u64>>)
    ensures
        r@ == a@,
{
    let mut r: Vec<Option<u64>> = Vec::new();
    let mut i: usize = 0;
    while i < a.len()
        invariant
            i <= a@.len(),
            r@ == a@.take(i as int),
        decreases a@.len() - i,
    {
        r.push(a[i]);
        proof {
            assert(a@.take(i + 1) =~= a@.take(i as int).push(a@[i as int]));
        }
        i = i + 1;
    }
    proof {
        assert(a@.take(a@.len() as int) =~= a@);
    }
    r
}

fn unwrap_assignment(a: &Vec<Option<u64>>) -> (r: Vec<u64>)
    requires
        forall|i: int| 0 <= i < a@.len() ==> a@[i] is Some,
    ensures
        r@.len() == a@.len(),
        forall|i: int| 0 <= i < a@.len() ==> a@[i] == Some(r@[i]),
{
    let mut r: Vec<u64> = Vec::new();
    let mut i: usize = 0;
    while i < a.len()
        invariant
            i <= a@.len(),
            r@.len() == i,
            forall|k: int| 0 <= k < a@.len() ==> a@[k] is Some,
            forall|k: int| 0 <= k < i ==> a@[k] == Some(r@[k]),
        decreases a@.len() - i,
    {
        let x = a[i].unwrap();
        r.push(x);
        i = i + 1;
    }
    r
}

fn all_satisfied<C: Constraint>(constraints: &Vec<C>, env: &Vec<Option<u64>>) -> (r: bool)
    requires
        all_valid(constraints@, env@.len() as nat),
    ensures
        r == all_sat(constraints@, env@),
{
    let mut j: usize = 0;
    while j < constraints.len()
        invariant
            j <= constraints@.len(),
            all_valid(constraints@, env@.len() as nat),
            forall|t: int| 0 <= t < j ==> (#[trigger] constraints@[t]).sat(env@),
        decreases constraints@.len() - j,
    {
        if !constraints[j].is_satisfied(env) {
            return false;
        }
        j = j + 1;
    }
    true
}

fn append_assignments(dst: &mut Vec<Vec<u64>>, src: Vec<Vec<u64>>)
    ensures
        final(dst)@.len() == old(dst)@.len() + src@.len(),
        forall|i: int| 0 <= i < old(dst)@.len() ==> final(dst)@[i] == old(dst)@[i],
        forall|i: int| 0 <= i < src@.len() ==> final(dst)@[old(dst)@.len() + i] == src@[i],
{
    let ghost src0 = src@;
    let mut rest = src;
    while rest.len() > 0
        invariant
            rest@.len() <= src0.len(),
            rest@ == src0.subrange(src0.len() - rest@.len(), src0.len() as int),
            dst@.len() == old(dst)@.len() + src0.len() - rest@.len(),
            forall|i: int| 0 <= i < old(dst)@.len() ==> dst@[i] == old(dst)@[i],
            forall|i: int|
                0 <= i < src0.len() - rest@.len() ==> dst@[old(dst)@.len() + i] == src0[i],
        decreases rest@.len(),
    {
        let ghost rest0 = rest@;
        let a = rest.remove(0);
        dst.push(a);
        proof {
            let k = src0.len() - rest0.len();
            assert(a == src0[k]);
            assert(rest@ =~= src0.subrange(src0.len() - rest@.len(), src0.len() as int));
        }
    }
}

/// One level of the chronological backtracking search: pick an unassigned
/// variable, try each of its candidate values in heuristic order, keep the
/// branches whose extended partial assignment satisfies every constraint, and
/// return exactly the complete solutions that extend `assignment`.
fn bt_search<C: Constraint>(
    constraints: &Vec<C>,
    domains: &Vec<Vec<u64>>,
    assignment: &Vec<Option<u64>>,
    variable_selector: VariableSelector,
    value_selector: ValueSelector,
    random: &mut RandomSource,
    statistics: &mut Statistics,
) -> (r: Vec<Vec<u64>>)
    requires
        domains@.len() == assignment@.len(),
        all_valid(constraints@, assignment@.len() as nat),
        all_sat(constraints@, assignment@),
        forall|i: int|
            0 <= i < assignment@.len() && assignment@[i] is Some ==> (
            #[trigger] domains@[i]@).contains(assignment@[i]->0),
        forall|i: int| 0 <= i < domains@.len() ==> (#[trigger] domains@[i]@).no_duplicates(),
        !(value_selector is LeastConstrainingValue),
    ensures
        forall|a: Seq<u64>|
            #![trigger contains_assignment(r@, a)]
            #![trigger branch_solution(domains@, constraints@, assignment@, a)]
            contains_assignment(r@, a) <==> branch_solution(
                domains@,
                constraints@,
                assignment@,
                a,
            ),
        distinct_assignments(r@),
        final(statistics).backtracks >= 1,
    decreases num_unassigned(assignment@),
{
    let ghost n = assignment@.len();
    let num_vars = assignment.len();
    proof {
        assert(n == num_vars);
        lemma_unassigned_seq_members(assignment@);
    }
    let mut order = variable_selector.variables(domains, assignment, random);
    let next_var = order.next();
    match next_var {
        None => {
            proof {
                assert(order.elements().len() == order.elements().to_multiset().len());
                assert(unassigned_seq(assignment@).len() == unassigned_seq(
                    assignment@,
                ).to_multiset().len());
                lemma_unassigned_seq_empty(assignment@);
            }
            statistics.count_solution();
            statistics.count_backtrack();
            let full = unwrap_assignment(assignment);
            let ghost full_seq = full@;
            let mut r: Vec<Vec<u64>> = Vec::new();
            r.push(full);
            proof {
                assert(lift(full_seq) =~= assignment@);
                assert forall|a: Seq<u64>|
                    contains_assignment(r@, a) <==> branch_solution(
                        domains@,
                        constraints@,
                        assignment@,
                        a,
                    ) by {
                    if contains_assignment(r@, a) {
                        assert(a == full_seq);
                        assert(agrees(a, assignment@));
                    }
                    if branch_solution(domains@, constraints@, assignment@, a) {
                        assert forall|i: int| 0 <= i < a.len() implies a[i] == full_seq[i] by {
                            assert(assignment@[i] is Some);
                            assert(Some(a[i]) == assignment@[i]);
                        }
                        assert(a =~= full_seq);
                        assert(r@[0]@ == a);
                    }
                }
            }
            r
        },
        Some(variable) => {
            proof {
                assert(order.elements().contains(variable)) by {
                    assert(order.elements()[0] == variable);
                }
                assert(order.elements().to_multiset().count(variable) > 0);
                assert(unassigned_seq(assignment@).to_multiset().count(variable) > 0);
                assert(unassigned_seq(assignment@).contains(variable));
            }
            let mut values = value_selector.values(variable, domains, random);
            let ghost vals = values.elements();
            proof {
                lemma_permutation_no_duplicates(domains@[variable as int]@, vals);
            }
            let mut solutions: Vec<Vec<u64>> = Vec::new();
            while values.has_next()
                invariant
                    domains@.len() == assignment@.len(),
                    all_valid(constraints@, assignment@.len() as nat),
                    all_sat(constraints@, assignment@),
                    forall|i: int|
                        0 <= i < assignment@.len() && assignment@[i] is Some ==> (
                        #[trigger] domains@[i]@).contains(assignment@[i]->0),
                    forall|i: int|
                        0 <= i < domains@.len() ==> (#[trigger] domains@[i]@).no_duplicates(),
                    !(value_selector is LeastConstrainingValue),
                    variable < assignment@.len(),
                    assignment@[variable as int] is None,
                    values.elements() == vals,
                    vals.no_duplicates(),
                    vals.to_multiset() == domains@[variable as int]@.to_multiset(),
                    0 <= values.cursor() <= vals.len(),
                    distinct_assignments(solutions@),
                    forall|a: Seq<u64>|
                        #![trigger contains_assignment(solutions@, a)]
                        #![trigger branch_solution(domains@, constraints@, assignment@, a)]
                        contains_assignment(solutions@, a) <==> (branch_solution(
                            domains@,
                            constraints@,
                            assignment@,
                            a,
                        ) && vals.take(values.cursor()).contains(a[variable as int])),
                decreases vals.len() - values.cursor(),
            {
                let ghost k = values.cursor();
                let x = values.next().unwrap();
                proof {
                    assert(vals.take(k + 1) =~= vals.take(k).push(vals[k]));
                }
                statistics.count_visited_node();
                let mut new_assignment = clone_assignment(assignment);
                new_assignment[variable] = Some(x);
                proof {
                    assert(vals.contains(x)) by {
                        assert(vals[k] == x);
                    }
                    assert(vals.to_multiset().count(x) > 0);
                    assert(domains@[variable as int]@.to_multiset().count(x) > 0);
                    assert(domains@[variable as int]@.contains(x));
                    lemma_num_unassigned_update(assignment@, variable as int, x);
                }
                if all_satisfied(constraints, &new_assignment) {
                    let ghost sols0 = solutions@;
                    let sub = bt_search(
                        constraints,
                        domains,
                        &new_assignment,
                        variable_selector,
                        value_selector,
                        random,
                        statistics,
                    );
                    let ghost sub0 = sub@;
                    append_assignments(&mut solutions, sub);
                    proof {
                        assert forall|a: Seq<u64>|
                            branch_solution(domains@, constraints@, new_assignment@, a)
                                <==> (branch_solution(domains@, constraints@, assignment@, a) && a[
                            variable as int] == x) by {
                            if branch_solution(domains@, constraints@, new_assignment@, a) {
                                assert forall|i: int|
                                    0 <= i < assignment@.len() && assignment@[i] is Some implies
                                    Some(a[i]) == assignment@[i] by {
                                    assert(new_assignment@[i] == assignment@[i]);
                                    assert(Some(a[i]) == new_assignment@[i]);
                                }
                                assert(agrees(a, assignment@));
                                assert(Some(a[variable as int]) == new_assignment@[
                                    variable as int]);
                            }
                            if branch_solution(domains@, constraints@, assignment@, a) && a[
                                variable as int] == x {
                                assert forall|i: int|
                                    0 <= i < new_assignment@.len() && new_assignment@[i] is Some
                                    implies Some(a[i]) == new_assignment@[i] by {
                                    if i != variable {
                                        assert(new_assignment@[i] == assignment@[i]);
                                    }
                                }
                                assert(agrees(a, new_assignment@));
                            }
                        }
                        assert forall|a: Seq<u64>|
                            contains_assignment(solutions@, a) <==> (branch_solution(
                                domains@,
                                constraints@,
                                assignment@,
                                a,
                            ) && vals.take(values.cursor()).contains(a[variable as int])) by {
                            if contains_assignment(solutions@, a) {
                                let i = choose|i: int|
                                    0 <= i < solutions@.len() && solutions@[i]@ == a;
                                if i < sols0.len() {
                                    assert(contains_assignment(sols0, a));
                                    let t = choose|t: int|
                                        0 <= t < vals.take(k).len() && vals.take(k)[t] == a[
                                            variable as int
                                        ];
                                    assert(vals.take(values.cursor())[t] == a[variable as int]);
                                } else {
                                    assert(solutions@[i] == sub0[i - sols0.len()]);
                                    assert(contains_assignment(sub0, a));
                                    assert(a[variable as int] == x);
                                    assert(vals.take(values.cursor())[k] == x);
                                }
                            }
                            if branch_solution(domains@, constraints@, assignment@, a)
                                && vals.take(values.cursor()).contains(a[variable as int]) {
                                if a[variable as int] == x {
                                    assert(branch_solution(
                                        domains@,
                                        constraints@,
                                        new_assignment@,
                                        a,
                                    ));
                                    assert(contains_assignment(sub0, a));
                                    let i = choose|i: int| 0 <= i < sub0.len() && sub0[i]@ == a;
                                    assert(solutions@[sols0.len() + i]@ == a);
                                } else {
                                    let t = choose|t: int|
                                        0 <= t < vals.take(values.cursor()).len() && vals.take(
                                            values.cursor(),
                                        )[t] == a[variable as int];
                                    assert(t < k);
                                    assert(vals.take(k)[t] == a[variable as int]);
                                    assert(vals.take(k).contains(a[variable as int]));
                                    assert(contains_assignment(sols0, a));
                                    let i = choose|i: int| 0 <= i < sols0.len() && sols0[i]@ == a;
                                    assert(solutions@[i]@ == a);
                                }
                            }
                        }
                        assert forall|i: int, j: int|
                            0 <= i < j < solutions@.len() implies solutions@[i]@ != solutions@[j]@
                            by {
                            if i < sols0.len() && j >= sols0.len() {
                                let ai = solutions@[i]@;
                                let aj = solutions@[j]@;
                                assert(contains_assignment(sols0, ai));
                                assert(solutions@[j] == sub0[j - sols0.len()]);
                                assert(sub0[j - sols0.len()]@ == aj);
                                assert(contains_assignment(sub0, aj));
                                assert(aj[variable as int] == x);
                                assert(vals.take(k).contains(ai[variable as int]));
                                if ai == aj {
                                    let t = choose|t: int|
                                        0 <= t < k && vals.take(k)[t] == ai[variable as int];
                                    assert(vals[t] == vals[k as int]);
                                }
                            } else if j < sols0.len() {
                                assert(sols0[i]@ != sols0[j]@);
                            } else {
                                assert(sub0[i - sols0.len()]@ != sub0[j - sols0.len()]@);
                            }
                        }
                    }
                } else {
                    statistics.count_backtrack();
                    proof {
                        assert forall|a: Seq<u64>|
                            branch_solution(domains@, constraints@, assignment@, a) && a[
                        variable as int] == x implies false by {
                            assert(agrees(a, new_assignment@));
                            assert(extends(lift(a), new_assignment@));
                            assert forall|j: int|
                                0 <= j < constraints@.len() implies (
                            #[trigger] constraints@[j]).sat(new_assignment@) by {
                                constraints@[j].lemma_sat_extends(new_assignment@, lift(a));
                            }
                        }
                        assert forall|a: Seq<u64>|
                            contains_assignment(solutions@, a) <==> (branch_solution(
                                domains@,
                                constraints@,
                                assignment@,
                                a,
                            ) && vals.take(values.cursor()).contains(a[variable as int])) by {
                            if branch_solution(domains@, constraints@, assignment@, a)
                                && vals.take(values.cursor()).contains(a[variable as int]) {
                                if a[variable as int] == x {
                                } else {
                                    assert(vals.take(k).contains(a[variable as int]));
                                }
                            }
                        }
                    }
                }
            }
            statistics.count_backtrack();
            proof {
                assert(vals.take(vals.len() as int) =~= vals);
                assert forall|a: Seq<u64>|
                    contains_assignment(solutions@, a) <==> branch_solution(
                        domains@,
                        constraints@,
                        assignment@,
                        a,
                    ) by {
                    if branch_solution(domains@, constraints@, assignment@, a) {
                        assert(domains@[variable as int]@.contains(a[variable as int]));
                        assert(domains@[variable as int]@.to_multiset().count(
                            a[variable as int],
                        ) > 0);
                        assert(vals.to_multiset().count(a[variable as int]) > 0);
                        assert(vals.contains(a[variable as int]));
                    }
                }
            }
            solutions
        },
    }
}

fn domain_contains(d: &Vec<u64>, x: u64) -> (b: bool)
    ensures
        b == d@.contains(x),
{
    let mut i: usize = 0;
    while i < d.len()
        invariant
            i <= d@.len(),
            forall|t: int| 0 <= t < i ==> d@[t] != x,
        decreases d@.len() - i,
    {
        if d[i] == x {
            return true;
        }
        i = i + 1;
    }
    false
}

fn find_initial_violation(domains: &Vec<Vec<u64>>, initial: &Vec<Option<u64>>) -> (r: Option<
    usize,
>)
    requires
        domains@.len() == initial@.len(),
    ensures
        match r {
            Some(i) => i < initial@.len() && initial@[i as int] is Some && !domains@[
                i as int
            ]@.contains(initial@[i as int]->0),
            None => forall|i: int|
                0 <= i < initial@.len() && initial@[i] is Some ==> (
                #[trigger] domains@[i]@).contains(initial@[i]->0),
        },
{
    let mut i: usize = 0;
    while i < initial.len()
        invariant
            i <= initial@.len(),
            domains@.len() == initial@.len(),
            forall|t: int|
                0 <= t < i && initial@[t] is Some ==> (#[trigger] domains@[t]@).contains(
                    initial@[t]->0,
                ),
        decreases initial@.len() - i,
    {
        match initial[i] {
            Some(x) => {
                if !domain_contains(&domains[i], x) {
                    return Some(i);
                }
            },
            None => {},
        }
        i = i + 1;
    }
    None
}

/// What one solver run returns: the deduplicated set of complete satisfying
/// assignments, the domain-specific solution built from each of them (in the
/// same order), and the search counters.
pub struct SearchResult<S> {
    pub assignments: Vec<Vec<u64>>,
    pub solutions: Vec<S>,
    pub statistics: Statistics,
}

/// The solvers' promise: `assignments` holds exactly the solutions of the
/// problem, each once, and `solutions` materializes them one for one.
pub open spec fn search_result_exact<P: CSP, S: Solution<P>>(p: &P, r: &SearchResult<S>) -> bool {
    &&& forall|a: Seq<u64>|
        #![trigger contains_assignment(r.assignments@, a)]
        #![trigger is_solution(p, a)]
        contains_assignment(r.assignments@, a) <==> is_solution(p, a)
    &&& distinct_assignments(r.assignments@)
    &&& r.solutions@.len() == r.assignments@.len()
    &&& forall|i: int|
        0 <= i < r.assignments@.len() ==> S::is_construction(
            p,
            (#[trigger] r.assignments@[i])@,
            r.solutions@[i],
        )
}

fn construct_all<P: CSP, S: Solution<P>>(problem: &P, assignments: &Vec<Vec<u64>>) -> (r: Vec<S>)
    requires
        csp_wf(problem),
        forall|i: int| 0 <= i < assignments@.len() ==> is_solution(problem, (#[trigger] assignments@[i])@),
    ensures
        r@.len() == assignments@.len(),
        forall|i: int|
            0 <= i < r@.len() ==> S::is_construction(problem, (#[trigger] assignments@[i])@, r@[i]),
{
    let mut r: Vec<S> = Vec::new();
    let mut i: usize = 0;
    while i < assignments.len()
        invariant
            i <= assignments@.len(),
            r@.len() == i,
            csp_wf(problem),
            forall|t: int|
                0 <= t < assignments@.len() ==> is_solution(problem, (#[trigger] assignments@[t])@),
            forall|t: int|
                0 <= t < i ==> S::is_construction(problem, (#[trigger] assignments@[t])@, r@[t]),
        decreases assignments@.len() - i,
    {
        let s = S::construct(problem, &assignments[i]);
        r.push(s);
        i = i + 1;
    }
    r
}

/// The raw-data solution predicate coincides with the problem-level one once
/// the vectors came from the problem's own accessors.
proof fn lemma_branch_is_solution<P: CSP>(
    problem: &P,
    domains: Seq<Vec<u64>>,
    constraints: Seq<<P as CSP>::Constraint>,
    initial: Seq<Option<u64>>,
)
    requires
        domains.len() == problem.spec_domains().len(),
        forall|i: int| 0 <= i < domains.len() ==> (#[trigger] domains[i])@ == problem.spec_domains()[i],
        constraints == problem.spec_constraints(),
        initial == problem.spec_initial(),
    ensures
        forall|a: Seq<u64>|
            #![trigger branch_solution(domains, constraints, initial, a)]
            #![trigger is_solution(problem, a)]
            branch_solution(domains, constraints, initial, a) <==> is_solution(problem, a),
{
    assert forall|a: Seq<u64>|
        #![trigger branch_solution(domains, constraints, initial, a)]
        #![trigger is_solution(problem, a)]
        branch_solution(domains, constraints, initial, a) <==> is_solution(problem, a) by {
        if branch_solution(domains, constraints, initial, a) {
            assert forall|i: int|
                0 <= i < a.len() implies (#[trigger] problem.spec_domains()[i]).contains(a[i]) by {
                assert(domains[i]@.contains(a[i]));
            }
            assert(is_solution(problem, a));
        }
        if is_solution(problem, a) {
            assert forall|i: int| 0 <= i < a.len() implies (#[trigger] domains[i]@).contains(
                a[i],
            ) by {
                assert(problem.spec_domains()[i].contains(a[i]));
            }
            assert(branch_solution(domains, constraints, initial, a));
        }
    }
}

/// Chronological backtracking: depth-first search that re-validates every
/// constraint against each candidate extension, and returns every complete
/// satisfying assignment of the problem, each exactly once.
pub fn backtracking<P: CSP, S: Solution<P>>(
    problem: &P,
    variable_selector: VariableSelector,
    value_selector: ValueSelector,
    random: &mut RandomSource,
) -> (r: SearchResult<S>)
    requires
        csp_wf(problem),
        !(value_selector is LeastConstrainingValue),
    ensures
        search_result_exact(problem, &r),
{
    let mut statistics = Statistics::new();
    let domains = problem.domains();
    let initial = problem.initial_assignments();
    let constraints = problem.constraints();
    match find_initial_violation(&domains, &initial) {
        Some(bad) => {
            proof {
                assert forall|a: Seq<u64>| is_solution(problem, a) implies false by {
                    assert(Some(a[bad as int]) == initial@[bad as int]);
                    assert(problem.spec_domains()[bad as int].contains(a[bad as int]));
                }
            }
            return SearchResult { assignments: Vec::new(), solutions: Vec::new(), statistics };
        },
        None => {},
    }
    if !all_satisfied(constraints, &initial) {
        proof {
            assert forall|a: Seq<u64>| is_solution(problem, a) implies false by {
                assert(extends(lift(a), initial@));
                assert forall|j: int|
                    0 <= j < constraints@.len() implies (#[trigger] constraints@[j]).sat(
                    initial@) by {
                    constraints@[j].lemma_sat_extends(initial@, lift(a));
                }
            }
        }
        return SearchResult { assignments: Vec::new(), solutions: Vec::new(), statistics };
    }
    proof {
        assert forall|i: int|
            0 <= i < domains@.len() implies (#[trigger] domains@[i]@).no_duplicates() by {
            assert(problem.spec_domains()[i].no_duplicates());
        }
    }
    let assignments = bt_search(
        constraints,
        &domains,
        &initial,
        variable_selector,
        value_selector,
        random,
        &mut statistics,
    );
    statistics.backtracks = statistics.backtracks - 1;
    proof {
        lemma_branch_is_solution(problem, domains@, constraints@, initial@);
        assert forall|i: int|
            0 <= i < assignments@.len() implies is_solution(problem, (#[trigger] assignments@[i])@)
            by {
            assert(contains_assignment(assignments@, assignments@[i]@));
        }
    }
    let solutions = construct_all::<P, S>(problem, &assignments);
    SearchResult { assignments, solutions, statistics }
}

/// Every constraint accepts the two-variable assignment `v := x, w := y`.
pub open spec fn pair_consistent<C: Constraint>(
    constraints: Seq<C>,
    n: nat,
    v: int,
    x: u64,
    w: int,
    y: u64,
) -> bool {
    forall|j: int|
        0 <= j < constraints.len() ==> (#[trigger] constraints[j]).sat(
            pair_assignment(n, v, x, w, y),
        )
}

/// The forward-checking invariant: the current domain of each unassigned
/// variable holds exactly the original candidates that are still consistent
/// with the partial assignment, each once.
pub open spec fn fc_domains_ok<C: Constraint>(
    constraints: Seq<C>,
    orig: Seq<Vec<u64>>,
    current: Seq<Vec<u64>>,
    p: Seq<Option<u64>>,
) -> bool {
    &&& current.len() == orig.len()
    &&& forall|w: int|
        0 <= w < current.len() && p[w] is None ==> (#[trigger] current[w]@).no_duplicates()
    &&& forall|w: int, y: u64|
        0 <= w < current.len() && p[w] is None ==> ((#[trigger] current[w]@.contains(y)) <==> (
        orig[w]@.contains(y) && all_sat(constraints, p.update(w, Some(y)))))
}

proof fn lemma_pair_consistent_step<C: Constraint>(
    constraints: Seq<C>,
    j: int,
    n: nat,
    v: int,
    x: u64,
    w: int,
    y: u64,
)
    requires
        0 <= j < constraints.len(),
    ensures
        pair_consistent(constraints.take(j + 1), n, v, x, w, y) <==> (pair_consistent(
            constraints.take(j),
            n,
            v,
            x,
            w,
            y,
        ) && constraints[j].sat(pair_assignment(n, v, x, w, y))),
{
    let a = pair_assignment(n, v, x, w, y);
    if pair_consistent(constraints.take(j + 1), n, v, x, w, y) {
        assert forall|t: int| 0 <= t < j implies (#[trigger] constraints.take(j)[t]).sat(a) by {
            assert(constraints.take(j + 1)[t] == constraints.take(j)[t]);
        }
        assert(constraints.take(j + 1)[j] == constraints[j]);
    }
    if pair_consistent(constraints.take(j), n, v, x, w, y) && constraints[j].sat(a) {
        assert forall|t: int| 0 <= t < j + 1 implies (#[trigger] constraints.take(j + 1)[t]).sat(
            a,
        ) by {
            if t < j {
                assert(constraints.take(j)[t] == constraints.take(j + 1)[t]);
                assert(constraints.take(j)[t].sat(a));
            } else {
                assert(constraints.take(j + 1)[t] == constraints[j]);
            }
        }
    }
}

/// One pruning pass per just-made assignment keeps the forward-checking
/// invariant: what survives in each remaining domain is exactly what is still
/// consistent with the grown partial assignment.
proof fn lemma_pruned_domains_ok<C: Constraint>(
    constraints: Seq<C>,
    orig: Seq<Vec<u64>>,
    current: Seq<Vec<u64>>,
    pruned: Seq<Vec<u64>>,
    p: Seq<Option<u64>>,
    v: int,
    x: u64,
)
    requires
        orig.len() == p.len(),
        current.len() == p.len(),
        pruned.len() == p.len(),
        all_valid(constraints, p.len() as nat),
        0 <= v < p.len(),
        p[v] is None,
        all_sat(constraints, p.update(v, Some(x))),
        fc_domains_ok(constraints, orig, current, p),
        forall|w: int, y: u64|
            0 <= w < p.len() && w != v ==> ((#[trigger] pruned[w]@.contains(y)) <==> (
            current[w]@.contains(y) && pair_consistent(constraints, p.len() as nat, v, x, w, y))),
        forall|w: int|
            0 <= w < p.len() && w != v && current[w]@.no_duplicates() ==> (
            #[trigger] pruned[w]@).no_duplicates(),
    ensures
        fc_domains_ok(constraints, orig, pruned, p.update(v, Some(x))),
{
    let n = p.len() as nat;
    let q = p.update(v, Some(x));
    assert forall|w: int|
        0 <= w < pruned.len() && q[w] is None implies (#[trigger] pruned[w]@).no_duplicates() by {
        assert(current[w]@.no_duplicates());
    }
    assert forall|w: int, y: u64|
        0 <= w < pruned.len() && q[w] is None implies ((#[trigger] pruned[w]@.contains(y)) <==> (
        orig[w]@.contains(y) && all_sat(constraints, q.update(w, Some(y))))) by {
        assert(w != v);
        assert(p[w] is None);
        assert(current[w]@.contains(y) <==> (orig[w]@.contains(y) && all_sat(
            constraints,
            p.update(w, Some(y)),
        )));
        assert(all_sat(constraints, q.update(w, Some(y))) <==> (all_sat(
            constraints,
            p.update(w, Some(y)),
        ) && pair_consistent(constraints, n, v, x, w, y))) by {
            if all_sat(constraints, q.update(w, Some(y))) {
                assert forall|j: int|
                    0 <= j < constraints.len() implies (#[trigger] constraints[j]).sat(
                    p.update(w, Some(y))) && constraints[j].sat(
                    pair_assignment(n, v, x, w, y)) by {
                    constraints[j].lemma_pair_split(p, v, x, w, y);
                }
            }
            if all_sat(constraints, p.update(w, Some(y))) && pair_consistent(
                constraints,
                n,
                v,
                x,
                w,
                y,
            ) {
                assert forall|j: int|
                    0 <= j < constraints.len() implies (#[trigger] constraints[j]).sat(
                    q.update(w, Some(y))) by {
                    constraints[j].lemma_pair_split(p, v, x, w, y);
                    assert(constraints[j].sat(pair_assignment(n, v, x, w, y)));
                }
            }
        }
    }
}

pub(crate) fn clone_values(d: &Vec<u64>) -> (r: Vec<u64>)
    ensures
        r@ == d@,
{
    let mut r: Vec<u64> = Vec::new();
    let mut i: usize = 0;
    while i < d.len()
        invariant
            i <= d@.len(),
            r@ == d@.take(i as int),
        decreases d@.len() - i,
    {
        r.push(d[i]);
        proof {
            assert(d@.take(i + 1) =~= d@.take(i as int).push(d@[i as int]));
        }
        i = i + 1;
    }
    proof {
        assert(d@.take(d@.len() as int) =~= d@);
    }
    r
}

pub(crate) fn clone_domains(d: &Vec<Vec<u64>>) -> (r: Vec<Vec<u64>>)
    ensures
        r@.len() == d@.len(),
        forall|i: int| 0 <= i < d@.len() ==> (#[trigger] r@[i]@) == d@[i]@,
{
    let mut r: Vec<Vec<u64>> = Vec::new();
    let mut i: usize = 0;
    while i < d.len()
        invariant
            i <= d@.len(),
            r@.len() == i,
            forall|t: int| 0 <= t < i ==> (#[trigger] r@[t]@) == d@[t]@,
        decreases d@.len() - i,
    {
        r.push(clone_values(&d[i]));
        i = i + 1;
    }
    r
}

/// The per-variable domains that forward checking starts from: each free
/// variable keeps exactly the candidates consistent with the pre-fixed
/// assignments.
fn restrict_initial_domains<C: Constraint>(
    constraints: &Vec<C>,
    domains: &Vec<Vec<u64>>,
    initial: &Vec<Option<u64>>,
) -> (r: Vec<Vec<u64>>)
    requires
        domains@.len() == initial@.len(),
        all_valid(constraints@, initial@.len() as nat),
        forall|i: int| 0 <= i < domains@.len() ==> (#[trigger] domains@[i]@).no_duplicates(),
    ensures
        fc_domains_ok(constraints@, domains@, r@, initial@),
{
    let n = domains.len();
    let mut scratch = clone_assignment(initial);
    let mut r: Vec<Vec<u64>> = Vec::new();
    let mut w: usize = 0;
    while w < n
        invariant
            scratch@ == initial@,
            n == domains@.len(),
            n == initial@.len(),
            all_valid(constraints@, initial@.len() as nat),
            forall|i: int| 0 <= i < domains@.len() ==> (#[trigger] domains@[i]@).no_duplicates(),
            r@.len() == w,
            w <= n,
            forall|t: int|
                0 <= t < w && initial@[t] is None ==> (#[trigger] r@[t]@).no_duplicates(),
            forall|t: int, y: u64|
                0 <= t < w && initial@[t] is None ==> ((#[trigger] r@[t]@.contains(y)) <==> (
                domains@[t]@.contains(y) && all_sat(constraints@, initial@.update(t, Some(y))))),
        decreases n - w,
    {
        if scratch[w].is_some() {
            r.push(clone_values(&domains[w]));
        } else {
            let dom = &domains[w];
            let mut kept: Vec<u64> = Vec::new();
            let mut idx: usize = 0;
            while idx < dom.len()
                invariant
                    scratch@ == initial@,
                    n == domains@.len(),
                    n == initial@.len(),
                    w < n,
                    initial@[w as int] is None,
                    all_valid(constraints@, initial@.len() as nat),
                    dom@ == domains@[w as int]@,
                    dom@.no_duplicates(),
                    idx <= dom@.len(),
                    kept@.no_duplicates(),
                    forall|y: u64|
                        (#[trigger] kept@.contains(y)) <==> (dom@.take(idx as int).contains(y)
                            && all_sat(constraints@, initial@.update(w as int, Some(y)))),
                decreases dom@.len() - idx,
            {
                let ghost kept0 = kept@;
                let y = dom[idx];
                scratch[w] = Some(y);
                let ok = all_satisfied(constraints, &scratch);
                scratch[w] = None;
                proof {
                    assert(scratch@ =~= initial@);
                    assert(dom@.take(idx + 1) =~= dom@.take(idx as int).push(dom@[idx as int]));
                }
                if ok {
                    proof {
                        if kept@.contains(y) {
                            assert(dom@.take(idx as int).contains(y));
                            let t = choose|t: int|
                                0 <= t < idx && dom@.take(idx as int)[t] == y;
                            assert(dom@[t] == dom@[idx as int]);
                        }
                    }
                    kept.push(y);
                }
                proof {
                    assert forall|z: u64| #[trigger] kept@.contains(z) implies (dom@.take(
                        idx + 1,
                    ).contains(z) && all_sat(constraints@, initial@.update(w as int, Some(z))))
                        by {
                        if kept0.contains(z) {
                            let t = choose|t: int|
                                0 <= t < idx && dom@.take(idx as int)[t] == z;
                            assert(dom@.take(idx + 1)[t] == z);
                        } else {
                            assert(z == y);
                            assert(dom@.take(idx + 1)[idx as int] == y);
                        }
                    }
                    assert forall|z: u64|
                        dom@.take(idx + 1).contains(z) && all_sat(
                            constraints@,
                            initial@.update(w as int, Some(z)),
                        ) implies #[trigger] kept@.contains(z) by {
                        let t = choose|t: int|
                            0 <= t < idx + 1 && #[trigger] dom@.take(idx + 1)[t] == z;
                        if t < idx {
                            assert(dom@.take(idx as int)[t] == z);
                            assert(kept0.contains(z));
                            let u = choose|u: int| 0 <= u < kept0.len() && kept0[u] == z;
                            assert(kept@[u] == z);
                        } else {
                            assert(z == y);
                            assert(ok);
                            assert(kept@[kept0.len() as int] == y);
                        }
                    }
                }
                idx = idx + 1;
            }
            proof {
                assert(dom@.take(dom@.len() as int) =~= dom@);
            }
            r.push(kept);
        }
        w = w + 1;
    }
    r
}

fn find_empty_domain(current: &Vec<Vec<u64>>, assignment: &Vec<Option<u64>>) -> (r: Option<usize>)
    requires
        current@.len() == assignment@.len(),
    ensures
        match r {
            Some(w) => w < current@.len() && assignment@[w as int] is None && current@[
                w as int
            ]@.len() == 0,
            None => forall|w: int|
                0 <= w < current@.len() && assignment@[w] is None ==> (
                #[trigger] current@[w]@).len() > 0,
        },
{
    let mut w: usize = 0;
    while w < current.len()
        invariant
            w <= current@.len(),
            current@.len() == assignment@.len(),
            forall|t: int|
                0 <= t < w && assignment@[t] is None ==> (#[trigger] current@[t]@).len() > 0,
        decreases current@.len() - w,
    {
        if assignment[w].is_none() && current[w].len() == 0 {
            return Some(w);
        }
        w = w + 1;
    }
    None
}

/// One level of the forward-checking search: pick an unassigned variable, and
/// for each candidate left in its pruned domain, prune the remaining domains
/// once and descend only while every unassigned variable keeps a candidate.
/// Returns exactly the complete solutions that extend `assignment`.
fn fc_search<C: Constraint>(
    constraints: &Vec<C>,
    domains: &Vec<Vec<u64>>,
    current: &Vec<Vec<u64>>,
    assignment: &Vec<Option<u64>>,
    variable_selector: VariableSelector,
    value_selector: ValueSelector,
    random: &mut RandomSource,
    statistics: &mut Statistics,
) -> (r: Vec<Vec<u64>>)
    requires
        domains@.len() == assignment@.len(),
        current@.len() == assignment@.len(),
        all_valid(constraints@, assignment@.len() as nat),
        all_sat(constraints@, assignment@),
        forall|i: int|
            0 <= i < assignment@.len() && assignment@[i] is Some ==> (
            #[trigger] domains@[i]@).contains(assignment@[i]->0),
        fc_domains_ok(constraints@, domains@, current@, assignment@),
        !(value_selector is LeastConstrainingValue),
    ensures
        forall|a: Seq<u64>|
            #![trigger contains_assignment(r@, a)]
            #![trigger branch_solution(domains@, constraints@, assignment@, a)]
            contains_assignment(r@, a) <==> branch_solution(
                domains@,
                constraints@,
                assignment@,
                a,
            ),
        distinct_assignments(r@),
        final(statistics).backtracks >= 1,
    decreases num_unassigned(assignment@),
{
    let ghost n = assignment@.len();
    let num_vars = assignment.len();
    proof {
        assert(n == num_vars);
        lemma_unassigned_seq_members(assignment@);
    }
    let mut order = variable_selector.variables(current, assignment, random);
    let next_var = order.next();
    match next_var {
        None => {
            proof {
                assert(order.elements().len() == order.elements().to_multiset().len());
                assert(unassigned_seq(assignment@).len() == unassigned_seq(
                    assignment@,
                ).to_multiset().len());
                lemma_unassigned_seq_empty(assignment@);
            }
            statistics.count_solution();
            statistics.count_backtrack();
            let full = unwrap_assignment(assignment);
            let ghost full_seq = full@;
            let mut r: Vec<Vec<u64>> = Vec::new();
            r.push(full);
            proof {
                assert(lift(full_seq) =~= assignment@);
                assert forall|a: Seq<u64>|
                    contains_assignment(r@, a) <==> branch_solution(
                        domains@,
                        constraints@,
                        assignment@,
                        a,
                    ) by {
                    if contains_assignment(r@, a) {
                        assert(a == full_seq);
                        assert(agrees(a, assignment@));
                    }
                    if branch_solution(domains@, constraints@, assignment@, a) {
                        assert forall|i: int| 0 <= i < a.len() implies a[i] == full_seq[i] by {
                            assert(assignment@[i] is Some);
                            assert(Some(a[i]) == assignment@[i]);
                        }
                        assert(a =~= full_seq);
                        assert(r@[0]@ == a);
                    }
                }
            }
            r
        },
        Some(variable) => {
            proof {
                assert(order.elements().contains(variable)) by {
                    assert(order.elements()[0] == variable);
                }
                assert(order.elements().to_multiset().count(variable) > 0);
                assert(unassigned_seq(assignment@).to_multiset().count(variable) > 0);
                assert(unassigned_seq(assignment@).contains(variable));
            }
            let mut values = value_selector.values(variable, current, random);
            let ghost vals = values.elements();
            proof {
                lemma_permutation_no_duplicates(current@[variable as int]@, vals);
            }
            let mut solutions: Vec<Vec<u64>> = Vec::new();
            while values.has_next()
                invariant
                    domains@.len() == assignment@.len(),
                    current@.len() == assignment@.len(),
                    all_valid(constraints@, assignment@.len() as nat),
                    all_sat(constraints@, assignment@),
                    forall|i: int|
                        0 <= i < assignment@.len() && assignment@[i] is Some ==> (
                        #[trigger] domains@[i]@).contains(assignment@[i]->0),
                    fc_domains_ok(constraints@, domains@, current@, assignment@),
                    !(value_selector is LeastConstrainingValue),
                    variable < assignment@.len(),
                    assignment@[variable as int] is None,
                    values.elements() == vals,
                    vals.no_duplicates(),
                    vals.to_multiset() == current@[variable as int]@.to_multiset(),
                    0 <= values.cursor() <= vals.len(),
                    distinct_assignments(solutions@),
                    forall|a: Seq<u64>|
                        #![trigger contains_assignment(solutions@, a)]
                        #![trigger branch_solution(domains@, constraints@, assignment@, a)]
                        contains_assignment(solutions@, a) <==> (branch_solution(
                            domains@,
                            constraints@,
                            assignment@,
                            a,
                        ) && vals.take(values.cursor()).contains(a[variable as int])),
                decreases vals.len() - values.cursor(),
            {
                let ghost k = values.cursor();
                let x = values.next().unwrap();
                proof {
                    assert(vals.take(k + 1) =~= vals.take(k).push(vals[k]));
                }
                statistics.count_visited_node();
                let mut new_assignment = clone_assignment(assignment);
                new_assignment[variable] = Some(x);
                proof {
                    assert(vals.contains(x)) by {
                        assert(vals[k] == x);
                    }
                    assert(vals.to_multiset().count(x) > 0);
                    assert(current@[variable as int]@.to_multiset().count(x) > 0);
                    assert(current@[variable as int]@.contains(x));
                    assert(domains@[variable as int]@.contains(x));
                    assert(all_sat(constraints@, assignment@.update(variable as int, Some(x))));
                    assert(new_assignment@ == assignment@.update(variable as int, Some(x)));
                    lemma_num_unassigned_update(assignment@, variable as int, x);
                }
                let mut new_domains = clone_domains(current);
                let mut j: usize = 0;
                while j < constraints.len()
                    invariant
                        current@.len() == assignment@.len(),
                        all_valid(constraints@, assignment@.len() as nat),
                        variable < assignment@.len(),
                        j <= constraints@.len(),
                        new_domains@.len() == assignment@.len(),
                        new_domains@[variable as int]@ == current@[variable as int]@,
                        forall|w: int, y: u64|
                            0 <= w < assignment@.len() && w != variable ==> ((
                            #[trigger] new_domains@[w]@.contains(y)) <==> (current@[w]@.contains(y)
                                && pair_consistent(
                                constraints@.take(j as int),
                                assignment@.len() as nat,
                                variable as int,
                                x,
                                w,
                                y,
                            ))),
                        forall|w: int|
                            0 <= w < assignment@.len() && w != variable && current@[
                            w]@.no_duplicates() ==> (#[trigger] new_domains@[w]@).no_duplicates(),
                    decreases constraints@.len() - j,
                {
                    constraints[j].prune(&mut new_domains, variable, x);
                    proof {
                        assert forall|w: int, y: u64|
                            0 <= w < assignment@.len() && w != variable implies ((
                        #[trigger] new_domains@[w]@.contains(y)) <==> (current@[w]@.contains(y)
                            && pair_consistent(
                            constraints@.take(j + 1),
                            assignment@.len() as nat,
                            variable as int,
                            x,
                            w,
                            y,
                        ))) by {
                            lemma_pair_consistent_step(
                                constraints@,
                                j as int,
                                assignment@.len() as nat,
                                variable as int,
                                x,
                                w,
                                y,
                            );
                        }
                    }
                    j = j + 1;
                }
                proof {
                    assert(constraints@.take(constraints@.len() as int) =~= constraints@);
                    lemma_pruned_domains_ok(
                        constraints@,
                        domains@,
                        current@,
                        new_domains@,
                        assignment@,
                        variable as int,
                        x,
                    );
                }
                match find_empty_domain(&new_domains, &new_assignment) {
                    None => {
                        let ghost sols0 = solutions@;
                        let sub = fc_search(
                            constraints,
                            domains,
                            &new_domains,
                            &new_assignment,
                            variable_selector,
                            value_selector,
                            random,
                            statistics,
                        );
                        let ghost sub0 = sub@;
                        append_assignments(&mut solutions, sub);
                        proof {
                            assert forall|a: Seq<u64>|
                                branch_solution(domains@, constraints@, new_assignment@, a)
                                    <==> (branch_solution(domains@, constraints@, assignment@, a)
                                && a[variable as int] == x) by {
                                if branch_solution(domains@, constraints@, new_assignment@, a) {
                                    assert forall|i: int|
                                        0 <= i < assignment@.len() && assignment@[i] is Some
                                        implies Some(a[i]) == assignment@[i] by {
                                        assert(new_assignment@[i] == assignment@[i]);
                                        assert(Some(a[i]) == new_assignment@[i]);
                                    }
                                    assert(agrees(a, assignment@));
                                    assert(Some(a[variable as int]) == new_assignment@[
                                        variable as int]);
                                }
                                if branch_solution(domains@, constraints@, assignment@, a) && a[
                                    variable as int] == x {
                                    assert forall|i: int|
                                        0 <= i < new_assignment@.len() && new_assignment@[i]
                                            is Some implies Some(a[i]) == new_assignment@[i] by {
                                        if i != variable {
                                            assert(new_assignment@[i] == assignment@[i]);
                                        }
                                    }
                                    assert(agrees(a, new_assignment@));
                                }
                            }
                            assert forall|a: Seq<u64>|
                                contains_assignment(solutions@, a) <==> (branch_solution(
                                    domains@,
                                    constraints@,
                                    assignment@,
                                    a,
                                ) && vals.take(values.cursor()).contains(a[variable as int])) by {
                                if contains_assignment(solutions@, a) {
                                    let i = choose|i: int|
                                        0 <= i < solutions@.len() && solutions@[i]@ == a;
                                    if i < sols0.len() {
                                        assert(contains_assignment(sols0, a));
                                        let t = choose|t: int|
                                            0 <= t < vals.take(k).len() && vals.take(k)[t] == a[
                                                variable as int
                                            ];
                                        assert(vals.take(values.cursor())[t] == a[
                                            variable as int]);
                                    } else {
                                        assert(solutions@[i] == sub0[i - sols0.len()]);
                                        assert(contains_assignment(sub0, a));
                                        assert(a[variable as int] == x);
                                        assert(vals.take(values.cursor())[k] == x);
                                    }
                                }
                                if branch_solution(domains@, constraints@, assignment@, a)
                                    && vals.take(values.cursor()).contains(a[variable as int]) {
                                    if a[variable as int] == x {
                                        assert(branch_solution(
                                            domains@,
                                            constraints@,
                                            new_assignment@,
                                            a,
                                        ));
                                        assert(contains_assignment(sub0, a));
                                        let i = choose|i: int|
                                            0 <= i < sub0.len() && sub0[i]@ == a;
                                        assert(solutions@[sols0.len() + i]@ == a);
                                    } else {
                                        let t = choose|t: int|
                                            0 <= t < vals.take(values.cursor()).len() && vals.take(
                                                values.cursor(),
                                            )[t] == a[variable as int];
                                        assert(t < k);
                                        assert(vals.take(k)[t] == a[variable as int]);
                                        assert(vals.take(k).contains(a[variable as int]));
                                        assert(contains_assignment(sols0, a));
                                        let i = choose|i: int|
                                            0 <= i < sols0.len() && sols0[i]@ == a;
                                        assert(solutions@[i]@ == a);
                                    }
                                }
                            }
                            assert forall|i: int, j2: int|
                                0 <= i < j2 < solutions@.len() implies solutions@[i]@
                                != solutions@[j2]@ by {
                                if i < sols0.len() && j2 >= sols0.len() {
                                    let ai = solutions@[i]@;
                                    let aj = solutions@[j2]@;
                                    assert(contains_assignment(sols0, ai));
                                    assert(solutions@[j2] == sub0[j2 - sols0.len()]);
                                    assert(sub0[j2 - sols0.len()]@ == aj);
                                    assert(contains_assignment(sub0, aj));
                                    assert(aj[variable as int] == x);
                                    assert(vals.take(k).contains(ai[variable as int]));
                                    if ai == aj {
                                        let t = choose|t: int|
                                            0 <= t < k && vals.take(k)[t] == ai[variable as int];
                                        assert(vals[t] == vals[k as int]);
                                    }
                                } else if j2 < sols0.len() {
                                    assert(sols0[i]@ != sols0[j2]@);
                                } else {
                                    assert(sub0[i - sols0.len()]@ != sub0[j2 - sols0.len()]@);
                                }
                            }
                        }
                    },
                    Some(w_empty) => {
                        statistics.count_backtrack();
                        proof {
                            assert forall|a: Seq<u64>|
                                branch_solution(domains@, constraints@, assignment@, a) && a[
                            variable as int] == x implies false by {
                                let y0 = a[w_empty as int];
                                let grown = new_assignment@.update(w_empty as int, Some(y0));
                                assert forall|i: int|
                                    0 <= i < grown.len() && grown[i] is Some implies lift(a)[i]
                                    == grown[i] by {
                                    if i == w_empty {
                                    } else if i == variable {
                                    } else {
                                        assert(grown[i] == assignment@[i]);
                                        assert(Some(a[i]) == assignment@[i]);
                                    }
                                }
                                assert(extends(lift(a), grown));
                                assert forall|j2: int|
                                    0 <= j2 < constraints@.len() implies (
                                #[trigger] constraints@[j2]).sat(grown) by {
                                    constraints@[j2].lemma_sat_extends(grown, lift(a));
                                }
                                assert(domains@[w_empty as int]@.contains(y0));
                                assert(new_domains@[w_empty as int]@.contains(y0));
                            }
                            assert forall|a: Seq<u64>|
                                contains_assignment(solutions@, a) <==> (branch_solution(
                                    domains@,
                                    constraints@,
                                    assignment@,
                                    a,
                                ) && vals.take(values.cursor()).contains(a[variable as int])) by {
                                if branch_solution(domains@, constraints@, assignment@, a)
                                    && vals.take(values.cursor()).contains(a[variable as int]) {
                                    if a[variable as int] == x {
                                    } else {
                                        let t = choose|t: int|
                                            0 <= t < vals.take(values.cursor()).len() && vals.take(
                                                values.cursor(),
                                            )[t] == a[variable as int];
                                        assert(t < k);
                                        assert(vals.take(k)[t] == a[variable as int]);
                                        assert(vals.take(k).contains(a[variable as int]));
                                    }
                                }
                                if contains_assignment(solutions@, a) {
                                    let t = choose|t: int|
                                        0 <= t < vals.take(k).len() && vals.take(k)[t] == a[
                                            variable as int
                                        ];
                                    assert(vals.take(values.cursor())[t] == a[variable as int]);
                                }
                            }
                        }
                    },
                }
            }
            statistics.count_backtrack();
            proof {
                assert(vals.take(vals.len() as int) =~= vals);
                assert forall|a: Seq<u64>|
                    contains_assignment(solutions@, a) <==> branch_solution(
                        domains@,
                        constraints@,
                        assignment@,
                        a,
                    ) by {
                    if branch_solution(domains@, constraints@, assignment@, a) {
                        assert(extends(lift(a), assignment@.update(variable as int, Some(
                            a[variable as int],
                        )))) by {
                            assert forall|i: int|
                                0 <= i < assignment@.len() && assignment@.update(
                                    variable as int,
                                    Some(a[variable as int]),
                                )[i] is Some implies lift(a)[i] == assignment@.update(
                                variable as int,
                                Some(a[variable as int]),
                            )[i] by {
                                if i != variable {
                                    assert(Some(a[i]) == assignment@[i]);
                                }
                            }
                        }
                        assert forall|j2: int|
                            0 <= j2 < constraints@.len() implies (#[trigger] constraints@[
                        j2]).sat(assignment@.update(variable as int, Some(a[variable as int])))
                            by {
                            constraints@[j2].lemma_sat_extends(
                                assignment@.update(variable as int, Some(a[variable as int])),
                                lift(a),
                            );
                        }
                        assert(domains@[variable as int]@.contains(a[variable as int]));
                        assert(current@[variable as int]@.contains(a[variable as int]));
                        assert(current@[variable as int]@.to_multiset().count(
                            a[variable as int],
                        ) > 0);
                        assert(vals.to_multiset().count(a[variable as int]) > 0);
                        assert(vals.contains(a[variable as int]));
                    }
                }
            }
            solutions
        },
    }
}

/// Forward checking: depth-first search that prunes the remaining domains
/// once per assignment and abandons a branch as soon as some unassigned
/// variable runs out of candidates.  Returns every complete satisfying
/// assignment of the problem, each exactly once.
pub fn forward_checking<P: CSP, S: Solution<P>>(
    problem: &P,
    variable_selector: VariableSelector,
    value_selector: ValueSelector,
    random: &mut RandomSource,
) -> (r: SearchResult<S>)
    requires
        csp_wf(problem),
        !(value_selector is LeastConstrainingValue),
    ensures
        search_result_exact(problem, &r),
{
    let mut statistics = Statistics::new();
    let domains = problem.domains();
    let initial = problem.initial_assignments();
    let constraints = problem.constraints();
    match find_initial_violation(&domains, &initial) {
        Some(bad) => {
            proof {
                assert forall|a: Seq<u64>| is_solution(problem, a) implies false by {
                    assert(Some(a[bad as int]) == initial@[bad as int]);
                    assert(problem.spec_domains()[bad as int].contains(a[bad as int]));
                }
            }
            return SearchResult { assignments: Vec::new(), solutions: Vec::new(), statistics };
        },
        None => {},
    }
    if !all_satisfied(constraints, &initial) {
        proof {
            assert forall|a: Seq<u64>| is_solution(problem, a) implies false by {
                assert(extends(lift(a), initial@));
                assert forall|j: int|
                    0 <= j < constraints@.len() implies (#[trigger] constraints@[j]).sat(
                    initial@) by {
                    constraints@[j].lemma_sat_extends(initial@, lift(a));
                }
            }
        }
        return SearchResult { assignments: Vec::new(), solutions: Vec::new(), statistics };
    }
    proof {
        assert forall|i: int|
            0 <= i < domains@.len() implies (#[trigger] domains@[i]@).no_duplicates() by {
            assert(problem.spec_domains()[i].no_duplicates());
        }
    }
    let current = restrict_initial_domains(constraints, &domains, &initial);
    let assignments = fc_search(
        constraints,
        &domains,
        &current,
        &initial,
        variable_selector,
        value_selector,
        random,
        &mut statistics,
    );
    statistics.backtracks = statistics.backtracks - 1;
    proof {
        lemma_branch_is_solution(problem, domains@, constraints@, initial@);
        assert forall|i: int|
            0 <= i < assignments@.len() implies is_solution(problem, (#[trigger] assignments@[i])@)
            by {
            assert(contains_assignment(assignments@, assignments@[i]@));
        }
    }
    let solutions = construct_all::<P, S>(problem, &assignments);
    SearchResult { assignments, solutions, statistics }
}

/// The solution set depends on the problem alone.  Any two runs that meet the
/// solvers' postcondition for the same problem — a repeated run, another pair
/// of heuristics, or the other algorithm — hold exactly the same assignments.
pub proof fn lemma_solution_set_invariant<P: CSP, S: Solution<P>>(
    p: &P,
    r1: &SearchResult<S>,
    r2: &SearchResult<S>,
)
    requires
        search_result_exact(p, r1),
        search_result_exact(p, r2),
    ensures
        forall|a: Seq<u64>|
            #![trigger contains_assignment(r1.assignments@, a)]
            #![trigger contains_assignment(r2.assignments@, a)]
            contains_assignment(r1.assignments@, a) <==> contains_assignment(r2.assignments@, a),
{
    assert forall|a: Seq<u64>|
        #![trigger contains_assignment(r1.assignments@, a)]
        #![trigger contains_assignment(r2.assignments@, a)]
        contains_assignment(r1.assignments@, a) <==> contains_assignment(r2.assignments@, a) by {
        if contains_assignment(r1.assignments@, a) {
            assert(is_solution(p, a));
        }
        if contains_assignment(r2.assignments@, a) {
            assert(is_solution(p, a));
        }
    }
}

/// Pre-fixed variables are never overridden: every returned assignment gives
/// an initially assigned variable exactly its initial value.
pub proof fn lemma_initial_assignment_preserved<P: CSP, S: Solution<P>>(
    p: &P,
    r: &SearchResult<S>,
    k: int,
    i: int,
    x: u64,
)
    requires
        search_result_exact(p, r),
        0 <= k < r.assignments@.len(),
        0 <= i < p.spec_initial().len(),
        p.spec_initial()[i] == Some(x),
    ensures
        r.assignments@[k]@[i] == x,
{
    assert(contains_assignment(r.assignments@, r.assignments@[k]@));
    assert(is_solution(p, r.assignments@[k]@));
}

/// Each variable draws its value independently from its own domain.
spec fn in_space(doms: Seq<Seq<u64>>, a: Seq<u64>) -> bool {
    &&& a.len() == doms.len()
    &&& forall|i: int| 0 <= i < a.len() ==> (#[trigger] doms[i]).contains(a[i])
}

/// How many combinations the domains allow: the product of their sizes.
spec fn domain_product(doms: Seq<Seq<u64>>) -> nat
    decreases doms.len(),
{
    if doms.len() == 0 {
        1
    } else {
        domain_product(doms.drop_last()) * doms.last().len()
    }
}

/// Every prefix extended by `y`.
spec fn push_all(prefixes: Seq<Seq<u64>>, y: u64) -> Seq<Seq<u64>> {
    prefixes.map_values(|a: Seq<u64>| a.push(y))
}

/// Every prefix extended by every value of `vals`, value by value.
spec fn cross(prefixes: Seq<Seq<u64>>, vals: Seq<u64>) -> Seq<Seq<u64>>
    decreases vals.len(),
{
    if vals.len() == 0 {
        Seq::empty()
    } else {
        cross(prefixes, vals.drop_last()) + push_all(prefixes, vals.last())
    }
}

/// Every combination of domain values, in a fixed order.
spec fn enumerate_space(doms: Seq<Seq<u64>>) -> Seq<Seq<u64>>
    decreases doms.len(),
{
    if doms.len() == 0 {
        seq![Seq::<u64>::empty()]
    } else {
        cross(enumerate_space(doms.drop_last()), doms.last())
    }
}

proof fn lemma_cross_properties(prefixes: Seq<Seq<u64>>, vals: Seq<u64>, n: int)
    requires
        forall|t: int| 0 <= t < prefixes.len() ==> (#[trigger] prefixes[t]).len() == n,
        prefixes.no_duplicates(),
        vals.no_duplicates(),
    ensures
        cross(prefixes, vals).len() == prefixes.len() * vals.len(),
        forall|t: int|
            0 <= t < cross(prefixes, vals).len() ==> (#[trigger] cross(prefixes, vals)[t]).len()
                == n + 1,
        forall|a: Seq<u64>|
            #[trigger] cross(prefixes, vals).contains(a) <==> (a.len() == n + 1
                && prefixes.contains(a.drop_last()) && vals.contains(a.last())),
        cross(prefixes, vals).no_duplicates(),
    decreases vals.len(),
{
    if vals.len() == 0 {
        assert forall|a: Seq<u64>| #[trigger] cross(prefixes, vals).contains(a) implies false by {}
    } else {
        let front = vals.drop_last();
        let y = vals.last();
        lemma_cross_properties(prefixes, front, n);
        let left = cross(prefixes, front);
        let right = push_all(prefixes, y);
        let whole = left + right;
        assert(left.len() == prefixes.len() * front.len());
        assert(whole.len() == prefixes.len() * front.len() + prefixes.len());
        assert(prefixes.len() * front.len() + prefixes.len() == prefixes.len() * vals.len()) by (
        nonlinear_arith)
            requires
                front.len() + 1 == vals.len(),
        ;
        assert forall|t: int| 0 <= t < whole.len() implies (#[trigger] whole[t]).len() == n
            + 1 by {
            if t >= left.len() {
                assert(whole[t] == prefixes[t - left.len()].push(y));
            }
        }
        assert forall|a: Seq<u64>| #[trigger] whole.contains(a) implies (a.len() == n + 1
            && prefixes.contains(a.drop_last()) && vals.contains(a.last())) by {
            let t = choose|t: int| 0 <= t < whole.len() && whole[t] == a;
            if t < left.len() {
                assert(left[t] == a);
                assert(left.contains(a));
                assert(front.contains(a.last()));
                let u = choose|u: int| 0 <= u < front.len() && front[u] == a.last();
                assert(vals[u] == a.last());
            } else {
                let p = prefixes[t - left.len()];
                assert(a == p.push(y));
                assert(a.drop_last() =~= p);
                assert(prefixes.contains(p));
                assert(vals.last() == a.last());
            }
        }
        assert forall|a: Seq<u64>|
            a.len() == n + 1 && prefixes.contains(a.drop_last()) && vals.contains(a.last())
            implies #[trigger] whole.contains(a) by {
            if front.contains(a.last()) {
                assert(left.contains(a));
                let t = choose|t: int| 0 <= t < left.len() && left[t] == a;
                assert(whole[t] == a);
            } else {
                let u2 = choose|u2: int| 0 <= u2 < vals.len() && vals[u2] == a.last();
                assert(a.last() == y) by {
                    if u2 < front.len() {
                        assert(front[u2] == a.last());
                    }
                }
                let t = choose|t: int| 0 <= t < prefixes.len() && prefixes[t] == a.drop_last();
                assert(right[t] == a.drop_last().push(y));
                assert(a =~= a.drop_last().push(y));
                assert(whole[left.len() + t] == a);
            }
        }
        assert forall|t1: int, t2: int| 0 <= t1 < t2 < whole.len() implies whole[t1] != whole[
        t2] by {
            if t1 < left.len() && t2 >= left.len() {
                let a1 = whole[t1];
                let a2 = whole[t2];
                assert(a1 == left[t1]);
                assert(left.contains(a1));
                assert(front.contains(a1.last()));
                assert(a2 == prefixes[t2 - left.len()].push(y));
                if a1 == a2 {
                    let u = choose|u: int| 0 <= u < front.len() && front[u] == a1.last();
                    assert(vals[u] == vals[vals.len() - 1]);
                }
            } else if t1 >= left.len() {
                let p1 = prefixes[t1 - left.len()];
                let p2 = prefixes[t2 - left.len()];
                assert(whole[t1] == p1.push(y));
                assert(whole[t2] == p2.push(y));
                if p1.push(y) == p2.push(y) {
                    assert(p1 =~= p1.push(y).drop_last());
                    assert(p2 =~= p2.push(y).drop_last());
                }
            } else {
                assert(left[t1] != left[t2]);
            }
        }
    }
}

proof fn lemma_enumerate_space(doms: Seq<Seq<u64>>)
    requires
        forall|i: int| 0 <= i < doms.len() ==> (#[trigger] doms[i]).no_duplicates(),
    ensures
        enumerate_space(doms).len() == domain_product(doms),
        forall|a: Seq<u64>|
            #[trigger] enumerate_space(doms).contains(a) <==> in_space(doms, a),
        enumerate_space(doms).no_duplicates(),
    decreases doms.len(),
{
    if doms.len() == 0 {
        assert(enumerate_space(doms)[0] == Seq::<u64>::empty());
        assert forall|a: Seq<u64>| #[trigger] enumerate_space(doms).contains(a) implies in_space(
            doms,
            a,
        ) by {
            assert(a == Seq::<u64>::empty());
        }
        assert forall|a: Seq<u64>| in_space(doms, a) implies #[trigger] enumerate_space(
            doms,
        ).contains(a) by {
            assert(a =~= Seq::<u64>::empty());
            assert(enumerate_space(doms)[0] == a);
        }
    } else {
        let front = doms.drop_last();
        lemma_enumerate_space(front);
        let prefixes = enumerate_space(front);
        assert forall|t: int| 0 <= t < prefixes.len() implies (#[trigger] prefixes[t]).len()
            == front.len() by {
            assert(prefixes.contains(prefixes[t]));
        }
        lemma_cross_properties(prefixes, doms.last(), front.len() as int);
        assert forall|a: Seq<u64>|
            #[trigger] enumerate_space(doms).contains(a) implies in_space(doms, a) by {
            assert(prefixes.contains(a.drop_last()));
            assert(in_space(front, a.drop_last()));
            assert forall|i: int| 0 <= i < a.len() implies (#[trigger] doms[i]).contains(
                a[i],
            ) by {
                if i < a.len() - 1 {
                    assert(front[i].contains(a.drop_last()[i]));
                }
            }
        }
        assert forall|a: Seq<u64>| in_space(doms, a) implies #[trigger] enumerate_space(
            doms,
        ).contains(a) by {
            assert forall|i: int| 0 <= i < a.len() - 1 implies (#[trigger] front[i]).contains(
                a.drop_last()[i],
            ) by {
                assert(doms[i].contains(a[i]));
            }
            assert(in_space(front, a.drop_last()));
            assert(doms.last().contains(a.last()));
        }
    }
}

/// With no constraints and nothing pre-assigned, a search result holds every
/// combination of domain values: for `n` variables of domain size `k`,
/// exactly `k^n` assignments.
pub proof fn lemma_no_constraints_count<P: CSP, S: Solution<P>>(p: &P, r: &SearchResult<S>, k: nat)
    requires
        csp_wf(p),
        search_result_exact(p, r),
        p.spec_constraints().len() == 0,
        forall|i: int| 0 <= i < p.spec_initial().len() ==> p.spec_initial()[i] is None,
        forall|i: int| 0 <= i < p.spec_domains().len() ==> (#[trigger] p.spec_domains()[i]).len() == k,
    ensures
        r.assignments@.len() == vstd::arithmetic::power::pow(
            k as int,
            p.spec_domains().len() as nat,
        ),
{
    broadcast use vstd::set::group_set_axioms;

    let doms = p.spec_domains();
    lemma_enumerate_space(doms);
    let reference = enumerate_space(doms);
    let found = Seq::new(r.assignments@.len(), |t: int| r.assignments@[t]@);
    assert forall|a: Seq<u64>| #[trigger] found.contains(a) <==> in_space(doms, a) by {
        if found.contains(a) {
            let t = choose|t: int| 0 <= t < found.len() && found[t] == a;
            assert(r.assignments@[t]@ == a);
            assert(contains_assignment(r.assignments@, a));
            assert(is_solution(p, a));
        }
        if in_space(doms, a) {
            assert(is_solution(p, a)) by {
                assert(agrees(a, p.spec_initial()));
            }
            assert(contains_assignment(r.assignments@, a));
            let t = choose|t: int| 0 <= t < r.assignments@.len() && r.assignments@[t]@ == a;
            assert(found[t] == a);
        }
    }
    assert(found.no_duplicates());
    assert(found.to_set() =~= reference.to_set()) by {
        assert forall|a: Seq<u64>| found.to_set().contains(a) implies reference.to_set().contains(
            a,
        ) by {
            assert(found.contains(a));
            assert(reference.contains(a));
        }
        assert forall|a: Seq<u64>| reference.to_set().contains(a) implies found.to_set().contains(
            a,
        ) by {
            assert(reference.contains(a));
            assert(found.contains(a));
        }
    }
    found.unique_seq_to_set();
    reference.unique_seq_to_set();
    assert(found.len() == domain_product(doms));
    lemma_domain_product_pow(doms, k);
}

proof fn lemma_domain_product_pow(doms: Seq<Seq<u64>>, k: nat)
    requires
        forall|i: int| 0 <= i < doms.len() ==> (#[trigger] doms[i]).len() == k,
    ensures
        domain_product(doms) == vstd::arithmetic::power::pow(k as int, doms.len() as nat),
    decreases doms.len(),
{
    reveal(vstd::arithmetic::power::pow);
    if doms.len() > 0 {
        lemma_domain_product_pow(doms.drop_last(), k);
        assert(domain_product(doms) == domain_product(doms.drop_last()) * k);
        assert(vstd::arithmetic::power::pow(k as int, doms.len() as nat) == k
            * vstd::arithmetic::power::pow(k as int, (doms.len() - 1) as nat));
        let q = domain_product(doms.drop_last()) as int;
        assert(q * (k as int) == (k as int) * q) by (nonlinear_arith);
        assert(domain_product(doms) == vstd::arithmetic::power::pow(
            k as int,
            doms.len() as nat,
        ));
    }
}

} // verus!
