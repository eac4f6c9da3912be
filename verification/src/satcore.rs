//! A stateful wrapper around an incremental CDCL SAT solver.
//!
//! The wrapper is stateless as seen by callers: every query passes the full
//! set of `known` literals.  Internally the known literals are asserted as
//! permanent unit clauses (the `fixed` set); when a caller's `known` set is
//! not a superset of what is currently asserted, the solver is rebuilt from
//! the original clause database.
//!
//! All calls into the SAT backend go through the `backend_*` methods below,
//! which Verus trusts; everything else in this module is verified against
//! the satisfiability model in [`crate::cnf`].
//!
//! A note on the conflict budget: the backend in use exposes no way to set
//! one, so its searches run to completion and [`SearchError::Limit`] is
//! never produced by it.  The budget bookkeeping below ([`budget_step`],
//! the limit and trip counters) implements the intended hysteresis and is
//! verified and tested, but with this backend it never alters a search.

use vstd::prelude::*;

use crate::cnf::{
    cnf_view, lemma_lit_set_contains, lemma_lit_set_equiv, lemma_lit_set_push,
    lemma_satisfiable_subset, lemma_unsat_superset, lit_seq, lit_set, satisfiable, valid_cnf,
    valid_lit, valid_lits,
};

verus! {

/// The backend solver, opaque to verification: Verus refuses to declare
/// `batsat::Solver` itself because of its trait-bounded type parameter, so
/// it is hidden in this struct, and every use of it goes through a trusted
/// `backend_*` method of [`SatCore`].
#[verifier::external_body]
struct Backend {
    solver: batsat::Solver<batsat::BasicCallbacks>,
}

/// The backend's literal type, used only while converting to and from the
/// DIMACS integers the library works with.
#[verifier::external_type_specification]
#[verifier::external_body]
pub struct ExLit(batsat::Lit);

/// The initial conflict budget of each solver instance.
pub const INITIAL_CONFLICT_LIMIT: i64 = 1000;

/// How many budget trips in a row are tolerated before the budget grows.
pub const LIMIT_TRIP_THRESHOLD: i64 = 1000;

/// A recoverable error: the SAT backend gave up before reaching an answer.
#[derive(Clone, Copy, Debug, PartialEq, Eq)]
pub enum SearchError {
    Limit,
}

impl SearchError {
    /// A human-readable description of the error.
    pub fn message(&self) -> (r: &'static str)
        ensures
            r@ == "The SAT solver reached its search limit"@,
    {
        "The SAT solver reached its search limit"
    }
}

pub type SearchResult<T> = Result<T, SearchError>;

/// What one backend solve call reported.
enum SolveStatus {
    Sat,
    Unsat,
    Unknown,
}

/// What one backend solve call reported, with an unsat core on failure.
enum CoreStatus {
    Sat,
    Unsat(Vec<i32>),
    Unknown,
}

/// What one backend solve call reported, with the queried part of the model
/// on success.
enum ModelStatus {
    Sat(Vec<bool>),
    Unsat,
    Unknown,
}

/// An incremental SAT solver together with the clause database it was built
/// from and the literals currently asserted as permanent units.
pub struct SatCore {
    solver: Backend,
    cnf: Vec<Vec<i32>>,
    fixed: Vec<i32>,
    limit: i64,
    trips: i64,
    calls: u64,
}

impl SatCore {
    /// The clause database, as the mathematical formula it denotes.
    pub closed spec fn cnfv(&self) -> Seq<Seq<int>> {
        cnf_view(self.cnf@)
    }

    /// The set of literals currently asserted as permanent units.
    pub closed spec fn fixedv(&self) -> Set<int> {
        lit_set(self.fixed@)
    }

    pub closed spec fn wf(&self) -> bool {
        &&& valid_cnf(self.cnfv())
        &&& valid_lits(lit_seq(self.fixed@))
        &&& 1 <= self.limit
        &&& 0 <= self.trips <= LIMIT_TRIP_THRESHOLD
    }

    /// The clause database is the same as in `other`; only solver-internal
    /// state, the fixed set, or budget counters may differ.
    pub open spec fn same_cnf(&self, other: &Self) -> bool {
        self.cnfv() == other.cnfv()
    }

    /// Builds a fresh backend solver holding exactly the given clauses.
    ///
    /// Relies on batsat: `Solver::default` makes an empty solver,
    /// `var_of_int` allocates a variable, and `add_clause_reuse` adds a
    /// clause over them.
    #[verifier::external_body]
    fn backend_new(cnf: &Vec<Vec<i32>>) -> Backend
        requires
            valid_cnf(cnf_view(cnf@)),
    {
        let mut solver = batsat::BasicSolver::default();
        for clause in cnf.iter() {
            let mut cl: Vec<batsat::Lit> = clause
                .iter()
                .map(|&l| {
                    let var = batsat::SolverInterface::var_of_int(&mut solver, l.unsigned_abs() - 1);
                    batsat::Lit::new(var, l > 0)
                })
                .collect();
            batsat::SolverInterface::add_clause_reuse(&mut solver, &mut cl);
        }
        Backend { solver }
    }

    /// Creates a solver over the given clause database.
    pub fn new(cnf: Vec<Vec<i32>>) -> (r: SatCore)
        requires
            valid_cnf(cnf_view(cnf@)),
        ensures
            r.cnfv() == cnf_view(cnf@),
            r.fixedv() =~= Set::<int>::empty(),
            r.wf(),
    {
        let solver = Self::backend_new(&cnf);
        SatCore {
            solver,
            cnf,
            fixed: Vec::new(),
            limit: INITIAL_CONFLICT_LIMIT,
            trips: 0,
            calls: 0,
        }
    }

    /// Asserts `l` as a permanent unit clause.
    ///
    /// Relies on batsat `add_clause_reuse`: adding the unit clause `l`
    /// conjoins `l` to the formula the solver decides.
    #[verifier::external_body]
    fn backend_fix(&mut self, l: i32)
        requires
            old(self).wf(),
            valid_lit(l as int),
        ensures
            final(self).cnf == old(self).cnf,
            final(self).fixed@ == old(self).fixed@.push(l),
            final(self).limit == old(self).limit,
            final(self).trips == old(self).trips,
            final(self).calls == old(self).calls,
    {
        let var = batsat::SolverInterface::var_of_int(&mut self.solver.solver, l.unsigned_abs() - 1);
        let mut cl = vec![batsat::Lit::new(var, l > 0)];
        batsat::SolverInterface::add_clause_reuse(&mut self.solver.solver, &mut cl);
        self.fixed.push(l);
    }

    /// Replaces the backend with a fresh solver over the original clause
    /// database, dropping every fixed unit.
    ///
    /// Relies on the same batsat entry points as [`Self::backend_new`].
    #[verifier::external_body]
    fn backend_rebuild(&mut self)
        requires
            old(self).wf(),
        ensures
            final(self).cnf == old(self).cnf,
            final(self).fixed@ == Seq::<i32>::empty(),
            final(self).limit == old(self).limit,
            final(self).trips == old(self).trips,
            final(self).calls == old(self).calls,
    {
        self.solver = Self::backend_new(&self.cnf);
        self.fixed.clear();
    }

    /// One assumption-based solve call.
    ///
    /// Relies on batsat `solve_limited`, whose documentation says TRUE means
    /// a model of the clauses respecting the assumptions was found and FALSE
    /// means there is none; the fixed units are part of the clauses.
    #[verifier::external_body]
    fn backend_solve(&mut self, assumps: &Vec<i32>) -> (r: SolveStatus)
        requires
            old(self).wf(),
            valid_lits(lit_seq(assumps@)),
        ensures
            final(self).cnf == old(self).cnf,
            final(self).fixed == old(self).fixed,
            final(self).limit == old(self).limit,
            final(self).trips == old(self).trips,
            final(self).calls == old(self).calls,
            r is Sat ==> satisfiable(
                old(self).cnfv(),
                old(self).fixedv().union(lit_set(assumps@)),
            ),
            r is Unsat ==> !satisfiable(
                old(self).cnfv(),
                old(self).fixedv().union(lit_set(assumps@)),
            ),
    {
        let lits = self.to_backend_lits(assumps);
        match batsat::SolverInterface::solve_limited(&mut self.solver.solver, &lits) {
            x if x == batsat::lbool::TRUE => SolveStatus::Sat,
            x if x == batsat::lbool::FALSE => SolveStatus::Unsat,
            _ => SolveStatus::Unknown,
        }
    }

    /// One assumption-based solve call returning an unsat core.
    ///
    /// Relies on batsat `solve_limited` as above and on `unsat_core`, which
    /// reports the final conflict clause: the negations of the assumptions
    /// the refutation used.  Negated back, the core is a subset of the
    /// assumptions, and the clauses together with the core alone already
    /// have no model, since the other assumptions played no part.
    #[verifier::external_body]
    fn backend_solve_core(&mut self, assumps: &Vec<i32>) -> (r: CoreStatus)
        requires
            old(self).wf(),
            valid_lits(lit_seq(assumps@)),
        ensures
            final(self).cnf == old(self).cnf,
            final(self).fixed == old(self).fixed,
            final(self).limit == old(self).limit,
            final(self).trips == old(self).trips,
            final(self).calls == old(self).calls,
            r is Sat ==> satisfiable(
                old(self).cnfv(),
                old(self).fixedv().union(lit_set(assumps@)),
            ),
            r matches CoreStatus::Unsat(core) ==> {
                &&& valid_lits(lit_seq(core@))
                &&& lit_set(core@).subset_of(lit_set(assumps@))
                &&& !satisfiable(old(self).cnfv(), old(self).fixedv().union(lit_set(core@)))
            },
    {
        let lits = self.to_backend_lits(assumps);
        match batsat::SolverInterface::solve_limited(&mut self.solver.solver, &lits) {
            x if x == batsat::lbool::TRUE => CoreStatus::Sat,
            x if x == batsat::lbool::FALSE => {
                let core = batsat::SolverInterface::unsat_core(&self.solver.solver)
                    .iter()
                    .map(|l| -Self::from_backend_lit(*l))
                    .collect();
                CoreStatus::Unsat(core)
            },
            _ => CoreStatus::Unknown,
        }
    }

    /// One assumption-based solve call that, on success, reports for each
    /// queried literal whether it holds in the model found.
    ///
    /// Relies on batsat `solve_limited` as above and on `value_lit`, which
    /// reports the model's value of a literal; a variable the model leaves
    /// unassigned occurs in no clause, so the model extends to it either way.
    #[verifier::external_body]
    fn backend_solve_model(&mut self, assumps: &Vec<i32>, query: &Vec<i32>) -> (r: ModelStatus)
        requires
            old(self).wf(),
            valid_lits(lit_seq(assumps@)),
            valid_lits(lit_seq(query@)),
        ensures
            final(self).cnf == old(self).cnf,
            final(self).fixed == old(self).fixed,
            final(self).limit == old(self).limit,
            final(self).trips == old(self).trips,
            final(self).calls == old(self).calls,
            r matches ModelStatus::Sat(vals) ==> {
                &&& vals@.len() == query@.len()
                &&& exists|a: Set<int>|
                    {
                        &&& crate::cnf::cnf_true(a, old(self).cnfv())
                        &&& crate::cnf::assumps_true(
                            a,
                            old(self).fixedv().union(lit_set(assumps@)),
                        )
                        &&& forall|i: int|
                            0 <= i < query@.len() ==> vals@[i] == crate::cnf::lit_true(
                                a,
                                #[trigger] query@[i] as int,
                            )
                    }
            },
            r is Unsat ==> !satisfiable(
                old(self).cnfv(),
                old(self).fixedv().union(lit_set(assumps@)),
            ),
    {
        let lits = self.to_backend_lits(assumps);
        match batsat::SolverInterface::solve_limited(&mut self.solver.solver, &lits) {
            x if x == batsat::lbool::TRUE => {
                let vals = query.iter().map(|&q| self.backend_value(q)).collect();
                ModelStatus::Sat(vals)
            },
            x if x == batsat::lbool::FALSE => ModelStatus::Unsat,
            _ => ModelStatus::Unknown,
        }
    }

    /// The model value of one literal after a satisfiable solve.
    ///
    /// Relies on batsat `value_lit`; an unassigned variable occurs in no
    /// clause, so either value extends the model, and the sign is used.
    #[verifier::external_body]
    fn backend_value(&mut self, q: i32) -> bool
        requires
            valid_lit(q as int),
    {
        let lit = Self::to_backend_lit(&mut self.solver, q);
        let v = batsat::SolverInterface::value_lit(&self.solver.solver, lit);
        if v == batsat::lbool::TRUE { true } else if v == batsat::lbool::FALSE { false } else { q < 0 }
    }

    /// Converts DIMACS integers to backend literals.
    #[verifier::external_body]
    fn to_backend_lits(&mut self, lits: &Vec<i32>) -> Vec<batsat::Lit>
        requires
            valid_lits(lit_seq(lits@)),
    {
        lits.iter().map(|&l| Self::to_backend_lit(&mut self.solver, l)).collect()
    }

    /// Converts one DIMACS integer to a backend literal.
    #[verifier::external_body]
    fn to_backend_lit(backend: &mut Backend, l: i32) -> batsat::Lit
        requires
            valid_lit(l as int),
    {
        let var = batsat::SolverInterface::var_of_int(&mut backend.solver, l.unsigned_abs() - 1);
        batsat::Lit::new(var, l > 0)
    }

    /// Converts one backend literal back to its DIMACS integer.
    #[verifier::external_body]
    fn from_backend_lit(l: batsat::Lit) -> i32
    {
        let v = (l.var().idx() + 1) as i32;
        if l.sign() {
            v
        } else {
            -v
        }
    }

    /// Makes the fixed set exactly the set of the given literals.
    ///
    /// Literals not yet asserted are asserted; if the request is not a
    /// superset of what is currently asserted, the solver is first rebuilt
    /// from the original clause database.
    pub fn fix_values(&mut self, lits: &Vec<i32>)
        requires
            old(self).wf(),
            valid_lits(lit_seq(lits@)),
        ensures
            final(self).wf(),
            final(self).cnfv() == old(self).cnfv(),
            final(self).fixedv() =~= lit_set(lits@),
    {
        if !crate::litvec::lits_subset(&self.fixed, lits) {
            self.backend_rebuild();
            proof {
                crate::cnf::lemma_lit_set_empty();
            }
        }
        let ghost cnf0 = self.cnfv();
        let mut i: usize = 0;
        while i < lits.len()
            invariant
                0 <= i <= lits@.len(),
                self.wf(),
                self.cnfv() == cnf0,
                valid_lits(lit_seq(lits@)),
                self.fixedv().subset_of(lit_set(lits@)),
                lit_set(lits@.subrange(0, i as int)).subset_of(self.fixedv()),
            decreases lits@.len() - i,
        {
            let x = lits[i];
            let ghost pre = self.fixed@;
            proof {
                assert(lit_seq(lits@)[i as int] == lits@[i as int] as int);
            }
            if !crate::litvec::contains_lit(&self.fixed, x) {
                self.backend_fix(x);
                proof {
                    lemma_lit_set_push(pre, x);
                    assert forall|k: int|
                        0 <= k < lit_seq(self.fixed@).len() implies valid_lit(
                        #[trigger] lit_seq(self.fixed@)[k],
                    ) by {
                        if k < pre.len() {
                            assert(lit_seq(pre)[k] == lit_seq(self.fixed@)[k]);
                        } else {
                            assert(lit_seq(self.fixed@)[k] == x as int);
                        }
                    }
                    lemma_lit_set_contains(lits@, i as int);
                }
            }
            proof {
                assert(lits@.subrange(0, i + 1) =~= lits@.subrange(0, i as int).push(
                    lits@[i as int],
                ));
                lemma_lit_set_push(lits@.subrange(0, i as int), lits@[i as int]);
                lemma_lit_set_contains(lits@, i as int);
            }
            i += 1;
        }
        proof {
            assert(lits@.subrange(0, lits@.len() as int) =~= lits@);
        }
    }

    /// Books one backend answer into the budget counters.
    fn note_outcome(&mut self, tripped: bool)
        requires
            old(self).wf(),
        ensures
            final(self).wf(),
            final(self).cnfv() == old(self).cnfv(),
            final(self).fixedv() == old(self).fixedv(),
    {
        if self.calls < u64::MAX {
            self.calls = self.calls + 1;
        }
        let step = budget_step(self.limit, self.trips, tripped);
        self.limit = step.0;
        self.trips = step.1;
    }

    /// How many backend solve calls this core has made.
    pub fn solver_calls(&self) -> u64 {
        self.calls
    }

    /// Solves under the given known literals (fixed as permanent units) and
    /// assumptions.  `Ok(true)` means a model was found; `Ok(false)` means
    /// there is none; `Err` means the backend gave up.
    pub fn assumption_solve(&mut self, known: &Vec<i32>, lits: &Vec<i32>) -> (r: SearchResult<
        bool,
    >)
        requires
            old(self).wf(),
            valid_lits(lit_seq(known@)),
            valid_lits(lit_seq(lits@)),
        ensures
            final(self).wf(),
            final(self).cnfv() == old(self).cnfv(),
            final(self).fixedv() =~= lit_set(known@),
            r == Ok::<bool, SearchError>(true) ==> satisfiable(
                old(self).cnfv(),
                lit_set(known@).union(lit_set(lits@)),
            ),
            r == Ok::<bool, SearchError>(false) ==> !satisfiable(
                old(self).cnfv(),
                lit_set(known@).union(lit_set(lits@)),
            ),
    {
        self.fix_values(known);
        let outcome = self.backend_solve(lits);
        match outcome {
            SolveStatus::Sat => {
                self.note_outcome(false);
                Ok(true)
            },
            SolveStatus::Unsat => {
                self.note_outcome(false);
                Ok(false)
            },
            SolveStatus::Unknown => {
                self.note_outcome(true);
                Err(SearchError::Limit)
            },
        }
    }

    /// Solves under the current fixed set with the given assumptions; on
    /// unsatisfiability returns an unsat core drawn from the assumptions.
    fn raw_solve_with_core(&mut self, lits: &Vec<i32>) -> (r: SearchResult<Option<Vec<i32>>>)
        requires
            old(self).wf(),
            valid_lits(lit_seq(lits@)),
        ensures
            final(self).wf(),
            final(self).cnfv() == old(self).cnfv(),
            final(self).fixedv() == old(self).fixedv(),
            r == Ok::<Option<Vec<i32>>, SearchError>(None) ==> satisfiable(
                old(self).cnfv(),
                old(self).fixedv().union(lit_set(lits@)),
            ),
            r matches Ok(Some(core)) ==> {
                &&& valid_lits(lit_seq(core@))
                &&& lit_set(core@).subset_of(lit_set(lits@))
                &&& !satisfiable(old(self).cnfv(), old(self).fixedv().union(lit_set(core@)))
            },
    {
        let outcome = self.backend_solve_core(lits);
        match outcome {
            CoreStatus::Sat => {
                self.note_outcome(false);
                Ok(None)
            },
            CoreStatus::Unsat(core) => {
                self.note_outcome(false);
                Ok(Some(core))
            },
            CoreStatus::Unknown => {
                self.note_outcome(true);
                Err(SearchError::Limit)
            },
        }
    }

    /// Solves under the given known literals and assumptions; on
    /// unsatisfiability returns an unsat core drawn from the assumptions.
    pub fn assumption_solve_with_core(&mut self, known: &Vec<i32>, lits: &Vec<i32>) -> (r:
        SearchResult<Option<Vec<i32>>>)
        requires
            old(self).wf(),
            valid_lits(lit_seq(known@)),
            valid_lits(lit_seq(lits@)),
        ensures
            final(self).wf(),
            final(self).cnfv() == old(self).cnfv(),
            final(self).fixedv() =~= lit_set(known@),
            r == Ok::<Option<Vec<i32>>, SearchError>(None) ==> satisfiable(
                old(self).cnfv(),
                lit_set(known@).union(lit_set(lits@)),
            ),
            r matches Ok(Some(core)) ==> {
                &&& valid_lits(lit_seq(core@))
                &&& lit_set(core@).subset_of(lit_set(lits@))
                &&& !satisfiable(old(self).cnfv(), lit_set(known@).union(lit_set(core@)))
            },
    {
        self.fix_values(known);
        self.raw_solve_with_core(lits)
    }

    /// Solves under the given known literals and assumptions; on success
    /// reports, for each queried literal, whether it holds in the model the
    /// backend found.
    pub fn assumption_solve_solution(
        &mut self,
        known: &Vec<i32>,
        lits: &Vec<i32>,
        query: &Vec<i32>,
    ) -> (r: SearchResult<Option<Vec<bool>>>)
        requires
            old(self).wf(),
            valid_lits(lit_seq(known@)),
            valid_lits(lit_seq(lits@)),
            valid_lits(lit_seq(query@)),
        ensures
            final(self).wf(),
            final(self).cnfv() == old(self).cnfv(),
            r matches Ok(Some(vals)) ==> {
                &&& vals@.len() == query@.len()
                &&& exists|a: Set<int>|
                    {
                        &&& crate::cnf::cnf_true(a, old(self).cnfv())
                        &&& crate::cnf::assumps_true(a, lit_set(known@).union(lit_set(lits@)))
                        &&& forall|i: int|
                            0 <= i < query@.len() ==> vals@[i] == crate::cnf::lit_true(
                                a,
                                #[trigger] query@[i] as int,
                            )
                    }
            },
            r == Ok::<Option<Vec<bool>>, SearchError>(None) ==> !satisfiable(
                old(self).cnfv(),
                lit_set(known@).union(lit_set(lits@)),
            ),
    {
        self.fix_values(known);
        let outcome = self.backend_solve_model(lits, query);
        match outcome {
            ModelStatus::Sat(vals) => {
                self.note_outcome(false);
                proof {
                    let a = choose|a: Set<int>|
                        {
                            &&& crate::cnf::cnf_true(a, self.cnfv())
                            &&& crate::cnf::assumps_true(
                                a,
                                self.fixedv().union(lit_set(lits@)),
                            )
                            &&& forall|i: int|
                                0 <= i < query@.len() ==> vals@[i] == crate::cnf::lit_true(
                                    a,
                                    #[trigger] query@[i] as int,
                                )
                        };
                    assert(crate::cnf::assumps_true(a, lit_set(known@).union(lit_set(lits@))));
                }
                Ok(Some(vals))
            },
            ModelStatus::Unsat => {
                self.note_outcome(false);
                Ok(None)
            },
            ModelStatus::Unknown => {
                self.note_outcome(true);
                Err(SearchError::Limit)
            },
        }
    }

    /// Finds a minimal unsatisfiable subset of `lits`, given that the
    /// `known` literals are fixed.
    ///
    /// Deletion-based: starting from an unsat core, each literal is dropped
    /// in turn and kept only if the remainder becomes satisfiable.  The
    /// result is minimal — every literal of it is essential — though not
    /// necessarily minimum.  `Ok(None)` means the whole set was satisfiable,
    /// or that more than `max_size` literals proved essential and the search
    /// was abandoned.
    pub fn quick_mus(&mut self, known: &Vec<i32>, lits: &Vec<i32>, max_size: Option<i64>) -> (r:
        SearchResult<Option<Vec<i32>>>)
        requires
            old(self).wf(),
            valid_lits(lit_seq(known@)),
            valid_lits(lit_seq(lits@)),
        ensures
            final(self).wf(),
            final(self).cnfv() == old(self).cnfv(),
            r matches Ok(Some(core)) ==> {
                &&& core@.no_duplicates()
                &&& valid_lits(lit_seq(core@))
                &&& lit_set(core@).subset_of(lit_set(lits@))
                &&& !satisfiable(old(self).cnfv(), lit_set(known@).union(lit_set(core@)))
                &&& forall|i: int|
                    0 <= i < core@.len() ==> satisfiable(
                        old(self).cnfv(),
                        lit_set(known@).union(lit_set(core@).remove(#[trigger] core@[i] as int)),
                    )
            },
            r == Ok::<Option<Vec<i32>>, SearchError>(None) && max_size is None ==> satisfiable(
                old(self).cnfv(),
                lit_set(known@).union(lit_set(lits@)),
            ),
    {
        let ghost cnf0 = old(self).cnfv();
        let ghost k = lit_set(known@);
        self.fix_values(known);
        let first = match self.raw_solve_with_core(lits) {
            Err(e) => {
                return Err(e);
            },
            Ok(None) => {
                return Ok(None);
            },
            Ok(Some(c)) => c,
        };
        let mut core = crate::litvec::dedup_lits(&first);
        let mut essential: usize = 0;
        let mut j: usize = 0;
        while j < lits.len()
            invariant
                0 <= j <= lits@.len(),
                self.wf(),
                self.cnfv() == cnf0,
                cnf0 == old(self).cnfv(),
                k == lit_set(known@),
                self.fixedv() =~= k,
                valid_lits(lit_seq(lits@)),
                valid_lits(lit_seq(core@)),
                core@.no_duplicates(),
                lit_set(core@).subset_of(lit_set(lits@)),
                !satisfiable(cnf0, k.union(lit_set(core@))),
                essential <= j,
                forall|c: int|
                    #![auto]
                    lit_set(core@).contains(c) && prefix_holds(lits@, j as int, c) ==> satisfiable(
                        cnf0,
                        k.union(lit_set(core@).remove(c)),
                    ),
            decreases lits@.len() - j,
        {
            let lit = lits[j];
            if crate::litvec::contains_lit(&core, lit) {
                let check = crate::litvec::remove_lit(&core, lit);
                proof {
                    assert forall|i: int|
                        0 <= i < check@.len() implies lit_set(lits@).contains(
                        #[trigger] check@[i] as int,
                    ) by {
                        lemma_lit_set_contains(check@, i);
                        assert(lit_set(core@).contains(check@[i] as int));
                    }
                }
                match self.raw_solve_with_core(&check) {
                    Err(e) => {
                        return Err(e);
                    },
                    Ok(None) => {
                        // `lit` is essential: without it the rest is satisfiable.
                        proof {
                            assert(lit_set(check@) =~= lit_set(core@).remove(lit as int));
                        }
                        essential = essential + 1;
                        if let Some(ms) = max_size {
                            let over = if ms < 0 {
                                true
                            } else {
                                essential as u64 > ms as u64
                            };
                            if over {
                                return Ok(None);
                            }
                        }
                        proof {
                            assert forall|c: int|
                                #![auto]
                                lit_set(core@).contains(c) && prefix_holds(
                                    lits@,
                                    j + 1,
                                    c,
                                ) implies satisfiable(cnf0, k.union(lit_set(core@).remove(c))) by {
                                if c == lit as int {
                                    assert(satisfiable(cnf0, k.union(lit_set(check@))));
                                } else {
                                    let p = choose|p: int|
                                        0 <= p < j + 1 && lits@[p] as int == c;
                                    assert(prefix_holds(lits@, j as int, c));
                                }
                            }
                        }
                    },
                    Ok(Some(c2)) => {
                        let newcore = crate::litvec::dedup_lits(&c2);
                        proof {
                            assert(lit_set(newcore@) =~= lit_set(c2@));
                            assert(lit_set(check@) =~= lit_set(core@).remove(lit as int));
                            assert(lit_set(newcore@).subset_of(lit_set(core@)));
                            assert(lit_set(newcore@).subset_of(lit_set(lits@)));
                            assert(!satisfiable(cnf0, k.union(lit_set(newcore@))));
                            assert forall|c: int|
                                #![auto]
                                lit_set(newcore@).contains(c) && prefix_holds(
                                    lits@,
                                    j + 1,
                                    c,
                                ) implies satisfiable(cnf0, k.union(lit_set(newcore@).remove(c))) by {
                                // The new core excludes `lit`, so `c` was seen strictly
                                // earlier, and was then already in the (larger) core.
                                assert(!lit_set(check@).contains(lit as int));
                                assert(c != lit as int);
                                let p = choose|p: int| 0 <= p < j + 1 && lits@[p] as int == c;
                                assert(prefix_holds(lits@, j as int, c));
                                assert(lit_set(core@).contains(c));
                                assert(satisfiable(cnf0, k.union(lit_set(core@).remove(c))));
                                assert(k.union(lit_set(newcore@).remove(c)).subset_of(
                                    k.union(lit_set(core@).remove(c)),
                                ));
                                lemma_satisfiable_subset(
                                    cnf0,
                                    k.union(lit_set(core@).remove(c)),
                                    k.union(lit_set(newcore@).remove(c)),
                                );
                            }
                        }
                        core = newcore;
                    },
                }
            } else {
                proof {
                    assert forall|c: int|
                        #![auto]
                        lit_set(core@).contains(c) && prefix_holds(lits@, j + 1, c) implies satisfiable(
                        cnf0,
                        k.union(lit_set(core@).remove(c)),
                    ) by {
                        assert(c != lit as int);
                        let p = choose|p: int| 0 <= p < j + 1 && lits@[p] as int == c;
                        assert(prefix_holds(lits@, j as int, c));
                    }
                }
            }
            j += 1;
        }
        proof {
            assert forall|i: int| 0 <= i < core@.len() implies satisfiable(
                cnf0,
                k.union(lit_set(core@).remove(#[trigger] core@[i] as int)),
            ) by {
                lemma_lit_set_contains(core@, i);
                lemma_lit_set_equiv(lits@, core@[i] as int);
                assert(prefix_holds(lits@, lits@.len() as int, core@[i] as int));
            }
        }
        Ok(Some(core))
    }
}

/// Some position of `s` before `j` holds the literal `c`.
pub open spec fn prefix_holds(s: Seq<i32>, j: int, c: int) -> bool {
    exists|p: int| 0 <= p < j && s[p] as int == c
}

/// One step of the conflict-budget hysteresis.
///
/// A solve that tripped the budget raises a counter; once the counter
/// passes its threshold the budget is multiplied by ten and the counter
/// reset; a solve within budget decays the counter.  The pair returned is
/// the new budget and the new counter.
pub fn budget_step(limit: i64, trips: i64, tripped: bool) -> (r: (i64, i64))
    requires
        1 <= limit,
        0 <= trips <= LIMIT_TRIP_THRESHOLD,
    ensures
        1 <= r.0,
        0 <= r.1 <= LIMIT_TRIP_THRESHOLD,
        tripped && trips >= LIMIT_TRIP_THRESHOLD ==> r.1 == 0 && r.0 == if limit <= i64::MAX / 10 {
            limit * 10
        } else {
            limit as int
        },
        tripped && trips < LIMIT_TRIP_THRESHOLD ==> r.0 == limit && r.1 == trips + 1,
        !tripped ==> r.0 == limit && r.1 == if trips > 0 {
            trips - 1
        } else {
            0
        },
{
    if tripped {
        if trips >= LIMIT_TRIP_THRESHOLD {
            if limit <= i64::MAX / 10 {
                (limit * 10, 0)
            } else {
                (limit, 0)
            }
        } else {
            (limit, trips + 1)
        }
    } else {
        if trips > 0 {
            (limit, trips - 1)
        } else {
            (limit, 0)
        }
    }
}

} // verus!
