//! The mathematical model of propositional satisfiability that the
//! engine's contracts are stated over.
//!
//! A SAT literal is a nonzero integer in the usual DIMACS convention: the
//! literal `v` asserts that variable `v` is true, and `-v` asserts that it
//! is false.  An assignment is the set of variables that are true.  A
//! formula is a sequence of clauses, each a sequence of literals.

use vstd::prelude::*;

verus! {

/// A literal the SAT backend can represent: nonzero, and its negation
/// representable too.
pub open spec fn valid_lit(l: int) -> bool {
    l != 0 && -0x7fff_ffff <= l <= 0x7fff_ffff
}

pub open spec fn valid_lits(s: Seq<int>) -> bool {
    forall|i: int| 0 <= i < s.len() ==> valid_lit(#[trigger] s[i])
}

pub open spec fn valid_cnf(c: Seq<Seq<int>>) -> bool {
    forall|i: int| 0 <= i < c.len() ==> valid_lits(#[trigger] c[i])
}

/// The literal `l` holds under the assignment `a` (the set of true variables).
pub open spec fn lit_true(a: Set<int>, l: int) -> bool {
    if l > 0 {
        a.contains(l)
    } else {
        !a.contains(-l)
    }
}

/// Some literal of the clause holds.
pub open spec fn clause_true(a: Set<int>, c: Seq<int>) -> bool {
    exists|i: int| 0 <= i < c.len() && lit_true(a, c[i])
}

/// Every clause of the formula holds.
pub open spec fn cnf_true(a: Set<int>, cnf: Seq<Seq<int>>) -> bool {
    forall|i: int| 0 <= i < cnf.len() ==> clause_true(a, #[trigger] cnf[i])
}

/// Every assumed literal holds.
pub open spec fn assumps_true(a: Set<int>, assumps: Set<int>) -> bool {
    forall|l: int| #[trigger] assumps.contains(l) ==> lit_true(a, l)
}

/// The formula has a model in which every assumption also holds.
pub open spec fn satisfiable(cnf: Seq<Seq<int>>, assumps: Set<int>) -> bool {
    exists|a: Set<int>| cnf_true(a, cnf) && assumps_true(a, assumps)
}

/// The view of an executable literal list as a sequence of integers.
pub open spec fn lit_seq(s: Seq<i32>) -> Seq<int> {
    s.map_values(|l: i32| l as int)
}

/// The view of an executable literal list as a set of integers.
pub open spec fn lit_set(s: Seq<i32>) -> Set<int> {
    lit_seq(s).to_set()
}

/// The view of an executable clause database.
pub open spec fn cnf_view(c: Seq<Vec<i32>>) -> Seq<Seq<int>> {
    c.map_values(|cl: Vec<i32>| lit_seq(cl@))
}

/// Weakening the assumptions preserves satisfiability.
pub proof fn lemma_satisfiable_subset(cnf: Seq<Seq<int>>, a1: Set<int>, a2: Set<int>)
    requires
        satisfiable(cnf, a1),
        a2.subset_of(a1),
    ensures
        satisfiable(cnf, a2),
{
    let a = choose|a: Set<int>| cnf_true(a, cnf) && assumps_true(a, a1);
    assert(cnf_true(a, cnf) && assumps_true(a, a2));
}

/// Strengthening the assumptions preserves unsatisfiability.
pub proof fn lemma_unsat_superset(cnf: Seq<Seq<int>>, a1: Set<int>, a2: Set<int>)
    requires
        !satisfiable(cnf, a1),
        a1.subset_of(a2),
    ensures
        !satisfiable(cnf, a2),
{
    if satisfiable(cnf, a2) {
        lemma_satisfiable_subset(cnf, a2, a1);
    }
}

/// Whether the literal is valid, executably.
pub fn valid_lit_exec(l: i32) -> (r: bool)
    ensures
        r == valid_lit(l as int),
{
    l != 0 && l != i32::MIN
}

pub open spec fn lit_in(s: Seq<i32>, l: i32) -> bool {
    lit_set(s).contains(l as int)
}

pub proof fn lemma_lit_set_contains(s: Seq<i32>, i: int)
    requires
        0 <= i < s.len(),
    ensures
        lit_set(s).contains(s[i] as int),
{
    assert(lit_seq(s)[i] == s[i] as int);
    assert(lit_seq(s).contains(s[i] as int));
}

/// Membership in the set view matches membership in the sequence.
pub proof fn lemma_lit_set_equiv(s: Seq<i32>, x: int)
    ensures
        lit_set(s).contains(x) <==> exists|i: int| 0 <= i < s.len() && s[i] as int == x,
{
    if lit_set(s).contains(x) {
        let i = choose|i: int| 0 <= i < lit_seq(s).len() && lit_seq(s)[i] == x;
        assert(s[i] as int == x);
    }
    if exists|i: int| 0 <= i < s.len() && s[i] as int == x {
        let i = choose|i: int| 0 <= i < s.len() && s[i] as int == x;
        lemma_lit_set_contains(s, i);
    }
}

pub proof fn lemma_lit_set_push(s: Seq<i32>, l: i32)
    ensures
        lit_set(s.push(l)) =~= lit_set(s).insert(l as int),
{
    assert forall|x: int| lit_set(s.push(l)).contains(x) implies lit_set(s).insert(
        l as int,
    ).contains(x) by {
        lemma_lit_set_equiv(s.push(l), x);
        let i = choose|i: int| 0 <= i < s.push(l).len() && s.push(l)[i] as int == x;
        if i < s.len() {
            lemma_lit_set_contains(s, i);
        }
    }
    assert forall|x: int| lit_set(s).insert(l as int).contains(x) implies lit_set(
        s.push(l),
    ).contains(x) by {
        if x == l as int {
            lemma_lit_set_contains(s.push(l), s.len() as int);
        } else {
            lemma_lit_set_equiv(s, x);
            let i = choose|i: int| 0 <= i < s.len() && s[i] as int == x;
            lemma_lit_set_contains(s.push(l), i);
        }
    }
}

pub proof fn lemma_lit_set_empty()
    ensures
        lit_set(Seq::<i32>::empty()) =~= Set::<int>::empty(),
{
    assert forall|x: int| !lit_set(Seq::<i32>::empty()).contains(x) by {
        lemma_lit_set_equiv(Seq::<i32>::empty(), x);
    }
}

/// A prefix's literals are among the whole sequence's.
pub proof fn lemma_lit_set_prefix(a: Seq<i32>, b: Seq<i32>)
    requires
        a.is_prefix_of(b),
    ensures
        lit_set(a).subset_of(lit_set(b)),
{
    assert forall|x: int| lit_set(a).contains(x) implies lit_set(b).contains(x) by {
        lemma_lit_set_equiv(a, x);
        let i = choose|i: int| 0 <= i < a.len() && a[i] as int == x;
        lemma_lit_set_contains(b, i);
    }
}


/// A set of assumptions that can be extended by neither polarity of a
/// literal is itself unsatisfiable: every model decides the literal.
pub proof fn lemma_unsat_both_polarities(cnf: Seq<Seq<int>>, assumps: Set<int>, l: int)
    requires
        l != 0,
        !satisfiable(cnf, assumps.insert(l)),
        !satisfiable(cnf, assumps.insert(-l)),
    ensures
        !satisfiable(cnf, assumps),
{
    if satisfiable(cnf, assumps) {
        let a = choose|a: Set<int>| cnf_true(a, cnf) && assumps_true(a, assumps);
        if lit_true(a, l) {
            assert(assumps_true(a, assumps.insert(l))) by {
                assert forall|x: int|
                    #[trigger] assumps.insert(l).contains(x) implies lit_true(a, x) by {
                    if x != l {
                        assert(assumps.contains(x));
                    }
                }
            }
        } else {
            assert(lit_true(a, -l));
            assert(assumps_true(a, assumps.insert(-l))) by {
                assert forall|x: int|
                    #[trigger] assumps.insert(-l).contains(x) implies lit_true(a, x) by {
                    if x != -l {
                        assert(assumps.contains(x));
                    }
                }
            }
        }
    }
}

/// A literal that can go either way splits the models: if both a literal
/// and its negation are separately consistent with the formula and the
/// assumptions, there are two models that disagree on it.  So on a puzzle
/// with exactly one solution, a solver that leaves no literal deducible has
/// decided every decision variable.
pub proof fn lemma_open_literal_gives_two_models(cnf: Seq<Seq<int>>, assumps: Set<int>, l: int)
    requires
        l != 0,
        satisfiable(cnf, assumps.insert(l)),
        satisfiable(cnf, assumps.insert(-l)),
    ensures
        exists|a1: Set<int>, a2: Set<int>|
            {
                &&& cnf_true(a1, cnf) && assumps_true(a1, assumps)
                &&& cnf_true(a2, cnf) && assumps_true(a2, assumps)
                &&& lit_true(a1, l) && !lit_true(a2, l)
            },
{
    let a1 = choose|a: Set<int>| cnf_true(a, cnf) && assumps_true(a, assumps.insert(l));
    let a2 = choose|a: Set<int>| cnf_true(a, cnf) && assumps_true(a, assumps.insert(-l));
    assert(assumps.insert(l).contains(l));
    assert(assumps.insert(-l).contains(-l));
    assert(lit_true(a1, l));
    assert(lit_true(a2, -l));
    assert(!lit_true(a2, l));
    assert(assumps_true(a1, assumps)) by {
        assert forall|x: int| #[trigger] assumps.contains(x) implies lit_true(a1, x) by {
            assert(assumps.insert(l).contains(x));
        }
    }
    assert(assumps_true(a2, assumps)) by {
        assert forall|x: int| #[trigger] assumps.contains(x) implies lit_true(a2, x) by {
            assert(assumps.insert(-l).contains(x));
        }
    }
    assert({
        &&& cnf_true(a1, cnf) && assumps_true(a1, assumps)
        &&& cnf_true(a2, cnf) && assumps_true(a2, assumps)
        &&& lit_true(a1, l) && !lit_true(a2, l)
    });
}


/// On a puzzle with exactly one solution there is no open literal: a
/// literal that the models all agree on and that is consistent with the
/// assumptions has a refutable negation.  So once nothing is deducible any
/// more, every decision literal is decided.
pub proof fn lemma_unique_solution_leaves_no_open_literal(
    cnf: Seq<Seq<int>>,
    assumps: Set<int>,
    l: int,
)
    requires
        l != 0,
        forall|a1: Set<int>, a2: Set<int>|
            (cnf_true(a1, cnf) && assumps_true(a1, assumps) && cnf_true(a2, cnf) && assumps_true(
                a2,
                assumps,
            )) ==> (lit_true(a1, l) == lit_true(a2, l)),
        satisfiable(cnf, assumps.insert(l)),
    ensures
        !satisfiable(cnf, assumps.insert(-l)),
{
    if satisfiable(cnf, assumps.insert(-l)) {
        lemma_open_literal_gives_two_models(cnf, assumps, l);
        let (a1, a2) = choose|a1: Set<int>, a2: Set<int>|
            {
                &&& cnf_true(a1, cnf) && assumps_true(a1, assumps)
                &&& cnf_true(a2, cnf) && assumps_true(a2, assumps)
                &&& lit_true(a1, l) && !lit_true(a2, l)
            };
    }
}

} // verus!
