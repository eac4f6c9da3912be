//! Constraint scope by clause-graph reachability.
//!
//! A constraint can only influence the decision-variable literals that are
//! transitively connected to it through non-unit clauses.  Starting from
//! both polarities of the constraint literal, the search follows
//! co-occurrence edges, stopping at decision-variable literals and at
//! literals that occur only in unit clauses.

use vstd::prelude::*;

use crate::cnf::{lemma_lit_set_contains, lit_seq, lit_set, valid_lit, valid_lits};
use crate::litvec::{contains_lit, insert_sorted, sorted_lits};

verus! {

/// Whether the literal occurs in some clause.
pub open spec fn occurs_in(cnf: Seq<Vec<i32>>, l: int) -> bool {
    exists|i: int| 0 <= i < cnf.len() && lit_set((#[trigger] cnf[i])@).contains(l)
}

/// Whether the literal, in either polarity, forms a unit clause.
pub open spec fn unit_lit(cnf: Seq<Vec<i32>>, l: int) -> bool {
    exists|i: int|
        0 <= i < cnf.len() && (#[trigger] cnf[i])@.len() == 1 && (cnf[i]@[0] as int == l || cnf[
            i
        ]@[0] as int == -l)
}

/// Whether the literal occurs in some clause.
fn occurs_in_exec(cnf: &Vec<Vec<i32>>, l: i32) -> (r: bool)
    ensures
        r == occurs_in(cnf@, l as int),
{
    let mut i: usize = 0;
    while i < cnf.len()
        invariant
            0 <= i <= cnf@.len(),
            forall|k: int| 0 <= k < i ==> !lit_set((#[trigger] cnf@[k])@).contains(l as int),
        decreases cnf@.len() - i,
    {
        if contains_lit(&cnf[i], l) {
            return true;
        }
        i += 1;
    }
    false
}

/// Whether the literal, in either polarity, forms a unit clause.
fn unit_lit_exec(cnf: &Vec<Vec<i32>>, l: i32) -> (r: bool)
    requires
        valid_lit(l as int),
    ensures
        r == unit_lit(cnf@, l as int),
{
    let neg = -l;
    let mut i: usize = 0;
    while i < cnf.len()
        invariant
            0 <= i <= cnf@.len(),
            neg as int == -(l as int),
            forall|k: int|
                0 <= k < i ==> !((#[trigger] cnf@[k])@.len() == 1 && (cnf@[k]@[0] as int == l as int
                    || cnf@[k]@[0] as int == -(l as int))),
        decreases cnf@.len() - i,
    {
        if cnf[i].len() == 1 && (cnf[i][0] == l || cnf[i][0] == neg) {
            return true;
        }
        i += 1;
    }
    false
}

/// One edge of the clause graph, negated as the search follows it: from
/// `t`, one reaches the negation of any literal sharing a clause with `t`,
/// unless `t` (in either polarity) is a unit-clause literal.
pub open spec fn step_to(cnf: Seq<Vec<i32>>, t: int, x: int) -> bool {
    &&& !unit_lit(cnf, t)
    &&& exists|ci: int, a: int, b: int|
        #![trigger cnf[ci]@[a], cnf[ci]@[b]]
        0 <= ci < cnf.len() && 0 <= a < cnf[ci]@.len() && 0 <= b < cnf[ci]@.len()
            && cnf[ci]@[a] as int == t && -(cnf[ci]@[b] as int) == x
}

/// A walk of the clause graph from either polarity of the constraint
/// literal: every inner stop avoids the decision literals.
pub open spec fn is_scope_path(
    cnfv: Seq<Seq<int>>,
    varlits: Set<int>,
    c: int,
    p: Seq<int>,
) -> bool {
    &&& p.len() >= 2
    &&& (p[0] == c || p[0] == -c)
    &&& (forall|i: int| 0 <= i < p.len() - 1 ==> step_to_v(cnfv, #[trigger] p[i], p[i + 1]))
    &&& (forall|i: int| 1 <= i < p.len() - 1 ==> !varlits.contains(#[trigger] p[i]))
}

/// A literal the constraint literal can reach through the clause graph.
pub open spec fn scope_reachable(
    cnfv: Seq<Seq<int>>,
    varlits: Set<int>,
    c: int,
    l: int,
) -> bool {
    exists|p: Seq<int>| is_scope_path(cnfv, varlits, c, p) && p.last() == l
}

/// Every literal of every clause, with its negation, sorted.
fn literal_universe(cnf: &Vec<Vec<i32>>) -> (r: Vec<i32>)
    requires
        crate::cnf::valid_cnf(crate::cnf::cnf_view(cnf@)),
    ensures
        sorted_lits(r@),
        forall|i: int, j: int|
            0 <= i < cnf@.len() && 0 <= j < (#[trigger] cnf@[i])@.len() ==> lit_set(r@).contains(
                #[trigger] cnf@[i]@[j] as int,
            ) && lit_set(r@).contains(-(cnf@[i]@[j] as int)),
{
    let mut r: Vec<i32> = Vec::new();
    let mut i: usize = 0;
    proof {
        crate::cnf::lemma_lit_set_empty();
    }
    while i < cnf.len()
        invariant
            0 <= i <= cnf@.len(),
            crate::cnf::valid_cnf(crate::cnf::cnf_view(cnf@)),
            sorted_lits(r@),
            forall|k: int, j: int|
                0 <= k < i && 0 <= j < (#[trigger] cnf@[k])@.len() ==> lit_set(r@).contains(
                    #[trigger] cnf@[k]@[j] as int,
                ) && lit_set(r@).contains(-(cnf@[k]@[j] as int)),
        decreases cnf@.len() - i,
    {
        let clause = &cnf[i];
        let mut j: usize = 0;
        while j < clause.len()
            invariant
                0 <= j <= clause@.len(),
                clause == &cnf@[i as int],
                0 <= i < cnf@.len(),
                crate::cnf::valid_cnf(crate::cnf::cnf_view(cnf@)),
                sorted_lits(r@),
                forall|k: int, q: int|
                    0 <= k < i && 0 <= q < (#[trigger] cnf@[k])@.len() ==> lit_set(r@).contains(
                        #[trigger] cnf@[k]@[q] as int,
                    ) && lit_set(r@).contains(-(cnf@[k]@[q] as int)),
                forall|q: int|
                    0 <= q < j ==> lit_set(r@).contains(#[trigger] clause@[q] as int) && lit_set(
                        r@,
                    ).contains(-(clause@[q] as int)),
            decreases clause@.len() - j,
        {
            let l = clause[j];
            proof {
                assert(crate::cnf::cnf_view(cnf@)[i as int] == lit_seq(cnf@[i as int]@));
                assert(lit_seq(clause@)[j as int] == clause@[j as int] as int);
            }
            let r2 = insert_sorted(&r, l);
            let r3 = insert_sorted(&r2, -l);
            r = r3;
            j += 1;
        }
        i += 1;
    }
    r
}

/// The negated co-occurrence neighbours of `t`: exactly the literals one
/// clause-graph step away from `t`.
fn neighbours(cnf: &Vec<Vec<i32>>, t: i32) -> (r: Vec<i32>)
    requires
        crate::cnf::valid_cnf(crate::cnf::cnf_view(cnf@)),
        valid_lit(t as int),
    ensures
        sorted_lits(r@),
        forall|x: int| #[trigger] lit_set(r@).contains(x) <==> step_to(cnf@, t as int, x),
        forall|x: int| #[trigger] lit_set(r@).contains(x) ==> valid_lit(x),
{
    let mut r: Vec<i32> = Vec::new();
    proof {
        crate::cnf::lemma_lit_set_empty();
    }
    if unit_lit_exec(cnf, t) {
        return r;
    }
    let mut i: usize = 0;
    while i < cnf.len()
        invariant
            0 <= i <= cnf@.len(),
            crate::cnf::valid_cnf(crate::cnf::cnf_view(cnf@)),
            valid_lit(t as int),
            !unit_lit(cnf@, t as int),
            sorted_lits(r@),
            forall|x: int|
                #[trigger] lit_set(r@).contains(x) ==> step_to(cnf@, t as int, x) && valid_lit(x),
            forall|ci: int, b: int|
                #![trigger cnf@[ci]@[b]]
                0 <= ci < i && 0 <= b < cnf@[ci]@.len() && (exists|a: int|
                    0 <= a < cnf@[ci]@.len() && cnf@[ci]@[a] as int == t as int) ==> lit_set(
                    r@,
                ).contains(-(cnf@[ci]@[b] as int)),
        decreases cnf@.len() - i,
    {
        let has_t = contains_lit(&cnf[i], t);
        if has_t {
            proof {
                crate::cnf::lemma_lit_set_equiv(cnf@[i as int]@, t as int);
            }
            let clause = &cnf[i];
            let mut j: usize = 0;
            while j < clause.len()
                invariant
                    0 <= j <= clause@.len(),
                    clause == &cnf@[i as int],
                    0 <= i < cnf@.len(),
                    crate::cnf::valid_cnf(crate::cnf::cnf_view(cnf@)),
                    valid_lit(t as int),
                    !unit_lit(cnf@, t as int),
                    exists|a: int|
                        0 <= a < cnf@[i as int]@.len() && cnf@[i as int]@[a] as int == t as int,
                    sorted_lits(r@),
                    forall|x: int|
                        #[trigger] lit_set(r@).contains(x) ==> step_to(cnf@, t as int, x)
                            && valid_lit(x),
                    forall|ci: int, b: int|
                        #![trigger cnf@[ci]@[b]]
                        0 <= ci < i && 0 <= b < cnf@[ci]@.len() && (exists|a: int|
                            0 <= a < cnf@[ci]@.len() && cnf@[ci]@[a] as int == t as int)
                            ==> lit_set(r@).contains(-(cnf@[ci]@[b] as int)),
                    forall|b: int|
                        0 <= b < j ==> lit_set(r@).contains(
                            -((#[trigger] clause@[b]) as int),
                        ),
                decreases clause@.len() - j,
            {
                let l = clause[j];
                proof {
                    assert(crate::cnf::cnf_view(cnf@)[i as int] == lit_seq(cnf@[i as int]@));
                    assert(lit_seq(clause@)[j as int] == clause@[j as int] as int);
                    crate::cnf::lemma_lit_set_contains(clause@, j as int);
                }
                let neg = -l;
                let ghost pre = r@;
                let r2 = insert_sorted(&r, neg);
                proof {
                    assert(lit_set(r2@) =~= lit_set(pre).insert(neg as int));
                    assert(step_to(cnf@, t as int, neg as int)) by {
                        let a = choose|a: int|
                            0 <= a < cnf@[i as int]@.len() && cnf@[i as int]@[a] as int
                                == t as int;
                        assert(0 <= i < cnf@.len() && 0 <= a < cnf@[i as int]@.len() && 0 <= (
                        j as int) < cnf@[i as int]@.len() && cnf@[i as int]@[a] as int == t as int
                            && -(cnf@[i as int]@[j as int] as int) == neg as int);
                    }
                }
                r = r2;
                j += 1;
            }
        }
        proof {
            if !has_t {
                crate::cnf::lemma_lit_set_equiv(cnf@[i as int]@, t as int);
            }
            assert forall|ci: int, b: int|
                #![trigger cnf@[ci]@[b]]
                0 <= ci < i + 1 && 0 <= b < cnf@[ci]@.len() && (exists|a: int|
                    0 <= a < cnf@[ci]@.len() && cnf@[ci]@[a] as int == t as int) implies lit_set(
                r@,
            ).contains(-(cnf@[ci]@[b] as int)) by {
                if ci == i {
                    if !has_t {
                        let a = choose|a: int|
                            0 <= a < cnf@[ci]@.len() && cnf@[ci]@[a] as int == t as int;
                        crate::cnf::lemma_lit_set_contains(cnf@[i as int]@, a);
                        assert(false);
                    }
                }
            }
        }
        i += 1;
    }
    proof {
        assert forall|x: int| step_to(cnf@, t as int, x) implies lit_set(r@).contains(x) by {
            let (ci, a, b) = choose|ci: int, a: int, b: int|
                #![trigger cnf@[ci]@[a], cnf@[ci]@[b]]
                0 <= ci < cnf@.len() && 0 <= a < cnf@[ci]@.len() && 0 <= b < cnf@[ci]@.len()
                    && cnf@[ci]@[a] as int == t as int && -(cnf@[ci]@[b] as int) == x;
        }
    }
    r
}

/// The decision-variable literals a constraint literal can reach through
/// clause co-occurrence, stopping at decision literals.
///
/// A literal is in the result exactly when the negated constraint literal
/// occurs in some clause and the literal is a decision literal reachable
/// from either polarity of the constraint literal along clause-graph steps
/// whose inner stops are not decision literals.
#[verifier::rlimit(100)]
#[verifier::spinoff_prover]
pub fn find_var_connections(cnf: &Vec<Vec<i32>>, all_var_lits: &Vec<i32>, con_lit: i32) -> (r:
    Vec<i32>)
    requires
        crate::cnf::valid_cnf(crate::cnf::cnf_view(cnf@)),
        valid_lit(con_lit as int),
        sorted_lits(all_var_lits@),
        valid_lits(lit_seq(all_var_lits@)),
    ensures
        sorted_lits(r@),
        valid_lits(lit_seq(r@)),
        forall|l: int|
            #[trigger] lit_set(r@).contains(l) <==> (occurs_in(cnf@, -(con_lit as int)) && lit_set(
                all_var_lits@,
            ).contains(l) && scope_reachable(
                crate::cnf::cnf_view(cnf@),
                lit_set(all_var_lits@),
                con_lit as int,
                l,
            )),
{
    let ghost varset = lit_set(all_var_lits@);
    let ghost c = con_lit as int;
    let mut result: Vec<i32> = Vec::new();
    proof {
        crate::cnf::lemma_lit_set_empty();
    }
    if !occurs_in_exec(cnf, -con_lit) {
        proof {
            assert forall|l: int| !lit_set(result@).contains(l) by {
                crate::cnf::lemma_lit_set_equiv(result@, l);
            }
        }
        return result;
    }
    let universe = literal_universe(cnf);
    let mut todo: Vec<i32> = Vec::new();
    todo.push(-con_lit);
    todo.push(con_lit);
    let mut found: Vec<i32> = Vec::new();
    let ghost mut done: Set<int> = Set::empty();
    proof {
        crate::litvec::lemma_sorted_lits_len(universe@);
        crate::litvec::lemma_sorted_lits_len(found@);
        crate::cnf::lemma_lit_set_empty();
        assert(lit_in_todo(todo@, -c)) by {
            assert(todo@[0] as int == -c);
        }
        assert(lit_in_todo(todo@, c)) by {
            assert(todo@[1] as int == c);
        }
        assert(lit_set(found@) =~= Set::<int>::empty());
        assert(lit_set(result@) =~= lit_set(found@).intersect(varset));
    }
    while todo.len() > 0
        invariant
            crate::cnf::valid_cnf(crate::cnf::cnf_view(cnf@)),
            valid_lit(c),
            c == con_lit as int,
            varset == lit_set(all_var_lits@),
            sorted_lits(all_var_lits@),
            valid_lits(lit_seq(all_var_lits@)),
            sorted_lits(universe@),
            forall|ci: int, cj: int|
                0 <= ci < cnf@.len() && 0 <= cj < (#[trigger] cnf@[ci])@.len() ==> lit_set(
                    universe@,
                ).contains(#[trigger] cnf@[ci]@[cj] as int) && lit_set(universe@).contains(
                    -(cnf@[ci]@[cj] as int),
                ),
            sorted_lits(found@),
            sorted_lits(result@),
            lit_set(found@).subset_of(lit_set(universe@)),
            forall|x: int| lit_set(found@).contains(x) ==> valid_lit(x),
            forall|k: int| 0 <= k < todo@.len() ==> valid_lit(#[trigger] todo@[k] as int),
            // The worklist protocol: processed literals have all their
            // neighbours recorded; the roots are pending or processed; a
            // recorded non-decision literal is pending or processed.
            forall|t: int, x: int|
                done.contains(t) && #[trigger] step_to(cnf@, t, x) ==> lit_set(
                    found@,
                ).contains(x),
            done.contains(c) || lit_in_todo(todo@, c),
            done.contains(-c) || lit_in_todo(todo@, -c),
            forall|x: int|
                #[trigger] lit_set(found@).contains(x) && !varset.contains(x) ==> done.contains(
                    x,
                ) || lit_in_todo(todo@, x),
            // Everything recorded or pending is sound: reachable, or a root.
            forall|x: int|
                #[trigger] lit_set(found@).contains(x) ==> scope_reachable(
                    crate::cnf::cnf_view(cnf@),
                    varset,
                    c,
                    x,
                ),
            forall|k: int|
                0 <= k < todo@.len() ==> (#[trigger] todo@[k] as int == c || todo@[k] as int == -c)
                    || (scope_reachable(crate::cnf::cnf_view(cnf@), varset, c, todo@[k] as int)
                    && !varset.contains(todo@[k] as int)),
            lit_set(result@) =~= lit_set(found@).intersect(varset),
        decreases 2 * (lit_set(universe@).len() - lit_set(found@).len()) + todo@.len(),
    {
        proof {
            crate::litvec::lemma_sorted_lits_len(universe@);
            crate::litvec::lemma_sorted_lits_len(found@);
            vstd::set_lib::lemma_len_subset(lit_set(found@), lit_set(universe@));
        }
        let ghost m0 = 2 * (lit_set(universe@).len() - lit_set(found@).len()) + todo@.len();
        let ghost todo_pre = todo@;
        let t = todo.pop().unwrap();
        proof {
            assert(todo_pre[todo_pre.len() - 1] == t);
            assert(lit_seq(todo_pre)[todo_pre.len() - 1] == t as int);
        }
        let ns = neighbours(cnf, t);
        let ghost t_old_done = done;
        proof {
            done = done.insert(t as int);
            assert forall|x: int|
                #[trigger] lit_set(found@).contains(x) && !varset.contains(x) implies done.contains(
                x,
            ) || lit_in_todo(todo@, x) by {
                if x != t as int && lit_in_todo(todo_pre, x) {
                    let k = choose|k: int|
                        0 <= k < todo_pre.len() && (#[trigger] todo_pre[k]) as int == x;
                    if k < todo_pre.len() - 1 {
                        assert(todo@[k] as int == x);
                    }
                }
            }
            assert(done.contains(c) || lit_in_todo(todo@, c)) by {
                if c != t as int && lit_in_todo(todo_pre, c) {
                    let k = choose|k: int|
                        0 <= k < todo_pre.len() && (#[trigger] todo_pre[k]) as int == c;
                    if k < todo_pre.len() - 1 {
                        assert(todo@[k] as int == c);
                    }
                }
            }
            assert(done.contains(-c) || lit_in_todo(todo@, -c)) by {
                if -c != t as int && lit_in_todo(todo_pre, -c) {
                    let k = choose|k: int|
                        0 <= k < todo_pre.len() && (#[trigger] todo_pre[k]) as int == -c;
                    if k < todo_pre.len() - 1 {
                        assert(todo@[k] as int == -c);
                    }
                }
            }
        }
        let mut q: usize = 0;
        while q < ns.len()
            invariant
                0 <= q <= ns@.len(),
                crate::cnf::valid_cnf(crate::cnf::cnf_view(cnf@)),
                valid_lit(c),
                c == con_lit as int,
                varset == lit_set(all_var_lits@),
                sorted_lits(all_var_lits@),
                valid_lits(lit_seq(all_var_lits@)),
                sorted_lits(ns@),
                forall|x: int| #[trigger] lit_set(ns@).contains(x) <==> step_to(cnf@, t as int, x),
                forall|x: int| #[trigger] lit_set(ns@).contains(x) ==> valid_lit(x),
                t as int == c || t as int == -c || (scope_reachable(
                    crate::cnf::cnf_view(cnf@),
                    varset,
                    c,
                    t as int,
                ) && !varset.contains(t as int)),
                done == t_old_done.insert(t as int),
                sorted_lits(universe@),
                forall|ci: int, cj: int|
                    0 <= ci < cnf@.len() && 0 <= cj < (#[trigger] cnf@[ci])@.len() ==> lit_set(
                        universe@,
                    ).contains(#[trigger] cnf@[ci]@[cj] as int) && lit_set(universe@).contains(
                        -(cnf@[ci]@[cj] as int),
                    ),
                sorted_lits(found@),
                sorted_lits(result@),
                lit_set(found@).subset_of(lit_set(universe@)),
                forall|x: int| lit_set(found@).contains(x) ==> valid_lit(x),
                forall|k: int| 0 <= k < todo@.len() ==> valid_lit(#[trigger] todo@[k] as int),
                // Neighbours of `t` seen so far are recorded.
                forall|k: int|
                    0 <= k < q ==> lit_set(found@).contains(#[trigger] ns@[k] as int),
                forall|tt: int, x: int|
                    t_old_done.contains(tt) && #[trigger] step_to(cnf@, tt, x) ==> lit_set(
                        found@,
                    ).contains(x),
                done.contains(c) || lit_in_todo(todo@, c),
                done.contains(-c) || lit_in_todo(todo@, -c),
                forall|x: int|
                    #[trigger] lit_set(found@).contains(x) && !varset.contains(x)
                        ==> done.contains(x) || lit_in_todo(todo@, x),
                forall|x: int|
                    #[trigger] lit_set(found@).contains(x) ==> scope_reachable(
                        crate::cnf::cnf_view(cnf@),
                        varset,
                        c,
                        x,
                    ),
                forall|k: int|
                    0 <= k < todo@.len() ==> (#[trigger] todo@[k] as int == c || todo@[k] as int
                        == -c) || (scope_reachable(
                        crate::cnf::cnf_view(cnf@),
                        varset,
                        c,
                        todo@[k] as int,
                    ) && !varset.contains(todo@[k] as int)),
                lit_set(result@) =~= lit_set(found@).intersect(varset),
                2 * (lit_set(universe@).len() - lit_set(found@).len()) + todo@.len() <= m0 - 1,
                lit_set(universe@).len() >= lit_set(found@).len(),
            decreases ns@.len() - q,
        {
            let l = ns[q];
            proof {
                crate::cnf::lemma_lit_set_contains(ns@, q as int);
                assert(lit_set(ns@).contains(l as int));
                assert(step_to(cnf@, t as int, l as int));
                // The new literal is reachable: extend `t`'s path, or start
                // one at a root.
                lemma_reach_step(crate::cnf::cnf_view(cnf@), cnf@, varset, c, t as int, l as int);
            }
            if !contains_lit(&found, l) {
                let ghost fpre = found@;
                let f2 = insert_sorted(&found, l);
                found = f2;
                proof {
                    // The new literal occurs (negated) in some clause, so it
                    // is in the universe.
                    let (ci, a, b) = choose|ci: int, a: int, b: int|
                        #![trigger cnf@[ci]@[a], cnf@[ci]@[b]]
                        0 <= ci < cnf@.len() && 0 <= a < cnf@[ci]@.len() && 0 <= b
                            < cnf@[ci]@.len() && cnf@[ci]@[a] as int == t as int && -(cnf@[ci]@[
                            b
                        ] as int) == l as int;
                    assert(lit_set(universe@).contains(-(cnf@[ci]@[b] as int)));
                    crate::litvec::lemma_sorted_lits_len(found@);
                    crate::litvec::lemma_sorted_lits_len(fpre);
                    assert(lit_set(found@).len() == lit_set(fpre).len() + 1) by {
                        assert(lit_set(found@) =~= lit_set(fpre).insert(l as int));
                        assert(!lit_set(fpre).contains(l as int));
                    }
                    vstd::set_lib::lemma_len_subset(lit_set(found@), lit_set(universe@));
                }
                if contains_lit(all_var_lits, l) {
                    let r2 = insert_sorted(&result, l);
                    proof {
                        assert(lit_set(r2@) =~= lit_set(result@).insert(l as int));
                        assert(lit_set(r2@) =~= lit_set(found@).intersect(varset));
                    }
                    result = r2;
                } else {
                    let ghost tpre = todo@;
                    todo.push(l);
                    proof {
                        assert forall|k: int|
                            0 <= k < todo@.len() implies valid_lit(
                            #[trigger] todo@[k] as int,
                        ) by {
                            if k < tpre.len() {
                                assert(todo@[k] == tpre[k]);
                            }
                        }
                        assert(lit_in_todo(todo@, l as int)) by {
                            assert(todo@[todo@.len() - 1] as int == l as int);
                        }
                        assert forall|x: int|
                            #[trigger] lit_set(found@).contains(x) && !varset.contains(
                                x,
                            ) implies done.contains(x) || lit_in_todo(todo@, x) by {
                            if x != l as int {
                                assert(lit_set(fpre).contains(x));
                                if lit_in_todo(tpre, x) {
                                    let k = choose|k: int|
                                        0 <= k < tpre.len() && (#[trigger] tpre[k]) as int == x;
                                    assert(todo@[k] as int == x);
                                }
                            }
                        }
                        assert(done.contains(c) || lit_in_todo(todo@, c)) by {
                            if lit_in_todo(tpre, c) {
                                let k = choose|k: int|
                                    0 <= k < tpre.len() && (#[trigger] tpre[k]) as int == c;
                                assert(todo@[k] as int == c);
                            }
                        }
                        assert(done.contains(-c) || lit_in_todo(todo@, -c)) by {
                            if lit_in_todo(tpre, -c) {
                                let k = choose|k: int|
                                    0 <= k < tpre.len() && (#[trigger] tpre[k]) as int == -c;
                                assert(todo@[k] as int == -c);
                            }
                        }
                    }
                }
            }
            q += 1;
        }
        proof {
            // `t` is now processed: all its neighbours are recorded.
            assert forall|tt: int, x: int|
                done.contains(tt) && #[trigger] step_to(cnf@, tt, x) implies lit_set(
                found@,
            ).contains(x) by {
                if tt == t as int {
                    assert(lit_set(ns@).contains(x));
                    crate::cnf::lemma_lit_set_equiv(ns@, x);
                    let k = choose|k: int| 0 <= k < ns@.len() && ns@[k] as int == x;
                }
            }
        }
    }
    proof {
        // The search is closed, so every reachable literal was recorded.
        assert forall|l: int| #[trigger] lit_set(result@).contains(l) implies (occurs_in(
            cnf@,
            -c,
        ) && varset.contains(l) && scope_reachable(
            crate::cnf::cnf_view(cnf@),
            varset,
            c,
            l,
        )) by {}
        assert forall|l: int|
            occurs_in(cnf@, -c) && varset.contains(l) && scope_reachable(
                crate::cnf::cnf_view(cnf@),
                varset,
                c,
                l,
            ) implies #[trigger] lit_set(result@).contains(l) by {
            let p = choose|p: Seq<int>|
                is_scope_path(crate::cnf::cnf_view(cnf@), varset, c, p) && p.last() == l;
            lemma_closed_search_complete(cnf@, varset, c, done, lit_set(found@), p);
            assert(lit_set(found@).contains(l));
        }
        assert forall|k: int| 0 <= k < lit_seq(result@).len() implies valid_lit(
            #[trigger] lit_seq(result@)[k],
        ) by {
            assert(lit_seq(result@)[k] == result@[k] as int);
            crate::cnf::lemma_lit_set_contains(result@, k);
        }
    }
    result
}

/// Whether the worklist holds the literal.
pub open spec fn lit_in_todo(s: Seq<i32>, x: int) -> bool {
    exists|k: int| 0 <= k < s.len() && (#[trigger] s[k]) as int == x
}

/// One clause-graph step extends reachability: from a root it starts a
/// path, and from a reachable non-decision literal it lengthens one.
proof fn lemma_reach_step(
    cnfv: Seq<Seq<int>>,
    cnf: Seq<Vec<i32>>,
    varlits: Set<int>,
    c: int,
    t: int,
    x: int,
)
    requires
        cnfv == crate::cnf::cnf_view(cnf),
        step_to(cnf, t, x),
        t == c || t == -c || (scope_reachable(cnfv, varlits, c, t) && !varlits.contains(t)),
    ensures
        scope_reachable(cnfv, varlits, c, x),
{
    if t == c || t == -c {
        let p = seq![t, x];
        assert(is_scope_path(cnfv, varlits, c, p)) by {
            assert(p[0] == t);
            assert forall|i: int| 0 <= i < p.len() - 1 implies step_to_v(
                cnfv,
                #[trigger] p[i],
                p[i + 1],
            ) by {
                lemma_step_views(cnfv, cnf, t, x);
            }
        }
        assert(p.last() == x);
    } else {
        let p0 = choose|p0: Seq<int>|
            is_scope_path(cnfv, varlits, c, p0) && p0.last() == t;
        let p = p0.push(x);
        assert(is_scope_path(cnfv, varlits, c, p)) by {
            assert(p[0] == p0[0]);
            assert forall|i: int| 0 <= i < p.len() - 1 implies step_to_v(
                cnfv,
                #[trigger] p[i],
                p[i + 1],
            ) by {
                if i < p0.len() - 1 {
                    assert(p[i] == p0[i] && p[i + 1] == p0[i + 1]);
                } else {
                    assert(p[i] == p0.last() && p[i + 1] == x);
                    lemma_step_views(cnfv, cnf, t, x);
                }
            }
            assert forall|i: int| 1 <= i < p.len() - 1 implies !varlits.contains(
                #[trigger] p[i],
            ) by {
                if i < p0.len() - 1 {
                    assert(p[i] == p0[i]);
                } else {
                    assert(p[i] == t);
                }
            }
        }
        assert(p.last() == x);
    }
}

/// At a closed search, every path's end is recorded: the path's start is
/// processed, and each processed literal's neighbours are recorded.
proof fn lemma_closed_search_complete(
    cnf: Seq<Vec<i32>>,
    varlits: Set<int>,
    c: int,
    done: Set<int>,
    found: Set<int>,
    p: Seq<int>,
)
    requires
        is_scope_path(crate::cnf::cnf_view(cnf), varlits, c, p),
        done.contains(c),
        done.contains(-c),
        forall|t: int, x: int|
            done.contains(t) && #[trigger] step_to(cnf, t, x) ==> found.contains(x),
        forall|x: int| #[trigger] found.contains(x) && !varlits.contains(x) ==> done.contains(x),
    ensures
        found.contains(p.last()),
    decreases p.len(),
{
    let cnfv = crate::cnf::cnf_view(cnf);
    if p.len() == 2 {
        assert(step_to_v(cnfv, p[0], p[1]));
        lemma_step_views_back(cnfv, cnf, p[0], p[1]);
        assert(done.contains(p[0]));
    } else {
        let p0 = p.drop_last();
        assert(is_scope_path(cnfv, varlits, c, p0)) by {
            assert(p0[0] == p[0]);
            assert forall|i: int| 0 <= i < p0.len() - 1 implies step_to_v(
                cnfv,
                #[trigger] p0[i],
                p0[i + 1],
            ) by {
                assert(p0[i] == p[i] && p0[i + 1] == p[i + 1]);
            }
            assert forall|i: int| 1 <= i < p0.len() - 1 implies !varlits.contains(
                #[trigger] p0[i],
            ) by {
                assert(p0[i] == p[i]);
            }
        }
        lemma_closed_search_complete(cnf, varlits, c, done, found, p0);
        assert(found.contains(p0.last()));
        assert(p0.last() == p[p.len() - 2]);
        assert(!varlits.contains(p[p.len() - 2]));
        assert(done.contains(p[p.len() - 2]));
        assert(step_to_v(cnfv, p[p.len() - 2], p.last()));
        lemma_step_views_back(cnfv, cnf, p[p.len() - 2], p.last());
    }
}

/// The step relation seen on the clause views.
pub open spec fn step_to_v(cnfv: Seq<Seq<int>>, t: int, x: int) -> bool {
    &&& !unit_lit_v(cnfv, t)
    &&& exists|ci: int, a: int, b: int|
        #![trigger cnfv[ci][a], cnfv[ci][b]]
        0 <= ci < cnfv.len() && 0 <= a < cnfv[ci].len() && 0 <= b < cnfv[ci].len()
            && cnfv[ci][a] == t && -cnfv[ci][b] == x
}

/// Whether the literal, in either polarity, forms a unit clause, on views.
pub open spec fn unit_lit_v(cnfv: Seq<Seq<int>>, l: int) -> bool {
    exists|i: int|
        0 <= i < cnfv.len() && (#[trigger] cnfv[i]).len() == 1 && (cnfv[i][0] == l || cnfv[i][0]
            == -l)
}

/// The two step relations agree: one reads the vectors, the other their
/// views.
proof fn lemma_step_views(cnfv: Seq<Seq<int>>, cnf: Seq<Vec<i32>>, t: int, x: int)
    requires
        cnfv == crate::cnf::cnf_view(cnf),
        step_to(cnf, t, x),
    ensures
        step_to_v(cnfv, t, x),
{
    lemma_unit_views(cnfv, cnf, t);
    let (ci, a, b) = choose|ci: int, a: int, b: int|
        #![trigger cnf[ci]@[a], cnf[ci]@[b]]
        0 <= ci < cnf.len() && 0 <= a < cnf[ci]@.len() && 0 <= b < cnf[ci]@.len() && cnf[ci]@[
            a
        ] as int == t && -(cnf[ci]@[b] as int) == x;
    assert(cnfv[ci] == lit_seq(cnf[ci]@));
    assert(cnfv[ci][a] == t && -cnfv[ci][b] == x);
}

/// And back again.
proof fn lemma_step_views_back(cnfv: Seq<Seq<int>>, cnf: Seq<Vec<i32>>, t: int, x: int)
    requires
        cnfv == crate::cnf::cnf_view(cnf),
        step_to_v(cnfv, t, x),
    ensures
        step_to(cnf, t, x),
{
    lemma_unit_views(cnfv, cnf, t);
    let (ci, a, b) = choose|ci: int, a: int, b: int|
        #![trigger cnfv[ci][a], cnfv[ci][b]]
        0 <= ci < cnfv.len() && 0 <= a < cnfv[ci].len() && 0 <= b < cnfv[ci].len() && cnfv[ci][a]
            == t && -cnfv[ci][b] == x;
    assert(cnfv[ci] == lit_seq(cnf[ci]@));
    assert(cnf[ci]@[a] as int == t && -(cnf[ci]@[b] as int) == x);
}

/// The unit-literal notion agrees on vectors and views.
proof fn lemma_unit_views(cnfv: Seq<Seq<int>>, cnf: Seq<Vec<i32>>, l: int)
    requires
        cnfv == crate::cnf::cnf_view(cnf),
    ensures
        unit_lit(cnf, l) <==> unit_lit_v(cnfv, l),
{
    if unit_lit(cnf, l) {
        let i = choose|i: int|
            0 <= i < cnf.len() && (#[trigger] cnf[i])@.len() == 1 && (cnf[i]@[0] as int == l || cnf[
                i
            ]@[0] as int == -l);
        assert(cnfv[i] == lit_seq(cnf[i]@));
        assert(cnfv[i].len() == 1 && (cnfv[i][0] == l || cnfv[i][0] == -l));
    }
    if unit_lit_v(cnfv, l) {
        let i = choose|i: int|
            0 <= i < cnfv.len() && (#[trigger] cnfv[i]).len() == 1 && (cnfv[i][0] == l || cnfv[i][0]
                == -l);
        assert(cnfv[i] == lit_seq(cnf[i]@));
        assert(cnf[i]@.len() == 1 && (cnf[i]@[0] as int == l || cnf[i]@[0] as int == -l));
    }
}

} // verus!
