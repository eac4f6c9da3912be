//! The deduction kernel: finds the literals that follow logically from the
//! current state, and minimal unsatisfiable subsets of constraints that
//! justify them.

use vstd::prelude::*;

use crate::cnf::{
    lemma_lit_set_contains, lemma_lit_set_equiv, lemma_lit_set_push, lemma_satisfiable_subset,
    lemma_unsat_superset, lit_seq, lit_set, satisfiable, valid_lit, valid_lits,
};
use crate::litvec::{contains_lit, insert_sorted, sorted_lits};
use crate::musdict::{MusContext, MusDict};
use crate::puzzle::PuzzleParse;
use crate::satcore::{SatCore, SearchError, SearchResult};

verus! {

/// The strategy used when searching for a minimal unsatisfiable subset.
#[derive(Copy, Clone, Debug, PartialEq, Eq)]
pub enum Strategy {
    /// A quick deletion-based shrink of the full constraint set.
    Quick,
    /// Drop a random slice of the constraints first, then shrink.
    Slice,
    /// Partition the constraints and leave out one class at a time.
    Cake,
    /// Cake for small targets, slice for larger ones.
    Dynamic,
}

impl Strategy {
    /// The default strategy.
    pub fn default_strategy() -> (r: Strategy)
        ensures
            r == Strategy::Dynamic,
    {
        Strategy::Dynamic
    }
}

impl Default for Strategy {
    fn default() -> (r: Strategy)
        ensures
            r == Strategy::Dynamic,
    {
        Strategy::Dynamic
    }
}

impl Default for MusConfig {
    fn default() -> (r: MusConfig)
        ensures
            r.base_size_mus == 2 && r.mus_add_step == 1 && r.mus_mult_step == 2 && r.repeats == 2
                && !r.find_bigger && r.strategy == Strategy::Dynamic,
    {
        MusConfig::new_default()
    }
}

impl Default for SolverConfig {
    fn default() -> (r: SolverConfig)
        ensures
            !r.only_assignments,
    {
        SolverConfig::new_default()
    }
}

/// Tuning knobs of the small-MUS search.
#[derive(Copy, Clone, Debug)]
pub struct MusConfig {
    /// The first target MUS size.
    pub base_size_mus: i64,
    /// Added to the target when a round fails.
    pub mus_add_step: i64,
    /// Multiplies the target when a round fails.
    pub mus_mult_step: i64,
    /// How many probes to run per literal and round.
    pub repeats: i64,
    /// Keep searching past the first success, for difficulty maps.
    pub find_bigger: bool,
    /// Which MUS-finding strategy to use.
    pub strategy: Strategy,
}

impl MusConfig {
    /// The default configuration.
    pub fn new_default() -> (r: MusConfig)
        ensures
            r.base_size_mus == 2 && r.mus_add_step == 1 && r.mus_mult_step == 2 && r.repeats == 2
                && !r.find_bigger && r.strategy == Strategy::Dynamic,
    {
        MusConfig {
            base_size_mus: 2,
            mus_add_step: 1,
            mus_mult_step: 2,
            repeats: 2,
            find_bigger: false,
            strategy: Strategy::Dynamic,
        }
    }

    /// The default configuration with another repeat count.
    pub fn repeats(repeats: i64) -> (r: MusConfig)
        ensures
            r.base_size_mus == 2 && r.mus_add_step == 1 && r.mus_mult_step == 2 && r.repeats
                == repeats && !r.find_bigger && r.strategy == Strategy::Dynamic,
    {
        MusConfig::new_with_repeats(repeats)
    }

    /// The default configuration with another repeat count.
    pub fn new_with_repeats(repeats: i64) -> (r: MusConfig)
        ensures
            r.base_size_mus == 2 && r.mus_add_step == 1 && r.mus_mult_step == 2 && r.repeats
                == repeats && !r.find_bigger && r.strategy == Strategy::Dynamic,
    {
        MusConfig {
            base_size_mus: 2,
            mus_add_step: 1,
            mus_mult_step: 2,
            repeats,
            find_bigger: false,
            strategy: Strategy::Dynamic,
        }
    }
}

/// Options of the solver itself.
#[derive(Copy, Clone, Debug)]
pub struct SolverConfig {
    /// Restrict deductions to positive assignments.
    pub only_assignments: bool,
}

impl SolverConfig {
    /// The default options.
    pub fn new_default() -> (r: SolverConfig)
        ensures
            !r.only_assignments,
    {
        SolverConfig { only_assignments: false }
    }
}

/// The deduction kernel: the compiled puzzle, a SAT core over its clauses,
/// the literals known so far and a cache of the currently provable ones.
pub struct PuzzleSolver {
    puzzleparse: PuzzleParse,
    satcore: SatCore,
    knownlits: Vec<i32>,
    tosolvelits: Option<Vec<i32>>,
    solver_config: SolverConfig,
}

impl PuzzleSolver {
    /// The formula of the puzzle's clause database.
    pub closed spec fn cnfv(&self) -> Seq<Seq<int>> {
        self.puzzleparse.cnfv()
    }

    /// The constraint literals, as a set.
    pub closed spec fn consetv(&self) -> Set<int> {
        self.puzzleparse.consetv()
    }

    /// The literals known to be true, as a sequence.
    pub closed spec fn knownv(&self) -> Seq<i32> {
        self.knownlits@
    }

    /// The literals known to be true, as a set.
    pub open spec fn known_set(&self) -> Set<int> {
        lit_set(self.knownv())
    }

    pub closed spec fn wf(&self) -> bool {
        &&& self.puzzleparse.wf()
        &&& self.satcore.wf()
        &&& self.satcore.cnfv() == self.puzzleparse.cnfv()
        &&& valid_lits(lit_seq(self.knownlits@))
        &&& (self.tosolvelits matches Some(c) ==> sorted_lits(c@) && valid_lits(lit_seq(c@))
            && (forall|k: int|
            0 <= k < c@.len() ==> !satisfiable(
                self.cnfv(),
                self.base_set().insert(-(#[trigger] c@[k] as int)),
            ) && !self.known_set().contains(c@[k] as int) && (if self.only_assignments_spec() {
                self.negsetv()
            } else {
                self.varsetv()
            }).contains(-(c@[k] as int))))
    }

    /// The inverse literal map of the compiled puzzle.
    pub closed spec fn invmapv(&self) -> Seq<(i32, Vec<crate::model::PuzLit>)> {
        self.puzzleparse.invlitmap@
    }

    /// The domain map of the compiled puzzle.
    pub closed spec fn domainmapv(&self) -> Seq<(crate::model::PuzVar, Vec<i64>)> {
        self.puzzleparse.domainmap@
    }

    /// The literal map of the compiled puzzle.
    pub closed spec fn litmapv(&self) -> Seq<(crate::model::PuzLit, i32)> {
        self.puzzleparse.litmap@
    }

    /// The reveal relations of the compiled puzzle.
    pub closed spec fn revealv(&self) -> Seq<(String, String)> {
        self.puzzleparse.eprime.reveal@
    }

    /// The cached provable literals, if a cache is present.
    pub closed spec fn cachev(&self) -> Option<Seq<i32>> {
        match self.tosolvelits {
            Some(c) => Some(c@),
            None => None,
        }
    }

    /// Creates a solver for a compiled puzzle.
    pub fn new(puzzleparse: PuzzleParse) -> (r: PuzzleSolver)
        requires
            puzzleparse.wf(),
        ensures
            r.wf(),
            r.cnfv() == puzzleparse.cnfv(),
            r.consetv() == puzzleparse.consetv(),
            r.knownv().len() == 0,
            r.cachev() is None,
    {
        let cnf_copy = copy_cnf(&puzzleparse.cnf);
        let satcore = SatCore::new(cnf_copy);
        PuzzleSolver {
            puzzleparse,
            satcore,
            knownlits: Vec::new(),
            tosolvelits: None,
            solver_config: SolverConfig::new_default(),
        }
    }

    /// Creates a solver with the given options.
    pub fn new_with_config(puzzleparse: PuzzleParse, solver_config: SolverConfig) -> (r:
        PuzzleSolver)
        requires
            puzzleparse.wf(),
        ensures
            r.wf(),
            r.cnfv() == puzzleparse.cnfv(),
            r.consetv() == puzzleparse.consetv(),
            r.knownv().len() == 0,
            r.cachev() is None,
    {
        let cnf_copy = copy_cnf(&puzzleparse.cnf);
        let satcore = SatCore::new(cnf_copy);
        PuzzleSolver {
            puzzleparse,
            satcore,
            knownlits: Vec::new(),
            tosolvelits: None,
            solver_config,
        }
    }

    /// The compiled puzzle.
    pub fn puzzleparse(&self) -> (r: &PuzzleParse)
        ensures
            r.cnfv() == self.cnfv(),
            r.consetv() == self.consetv(),
            self.wf() ==> r.wf(),
    {
        &self.puzzleparse
    }

    /// All literals known to be true, in the order they became known.
    pub fn get_known_lits(&self) -> (r: &Vec<i32>)
        ensures
            r@ == self.knownv(),
    {
        &self.knownlits
    }

    /// The constraint-set literals together with the known literals: the
    /// standing assumptions of every deduction query.
    fn base_assumptions(&self) -> (r: Vec<i32>)
        requires
            self.wf(),
        ensures
            valid_lits(lit_seq(r@)),
            lit_set(r@) =~= self.consetv().union(self.known_set()),
    {
        let mut r = crate::musdict::copy_lits(&self.puzzleparse.conset_lits);
        let mut i: usize = 0;
        proof {
            assert(lit_set(r@) =~= self.consetv().union(lit_set(self.knownlits@.subrange(0, 0))))
                by {
                assert(self.knownlits@.subrange(0, 0) =~= Seq::<i32>::empty());
                crate::cnf::lemma_lit_set_empty();
            }
        }
        while i < self.knownlits.len()
            invariant
                0 <= i <= self.knownlits@.len(),
                self.wf(),
                lit_set(r@) =~= self.consetv().union(lit_set(self.knownlits@.subrange(0, i as int))),
            decreases self.knownlits@.len() - i,
        {
            proof {
                assert(self.knownlits@.subrange(0, i + 1) =~= self.knownlits@.subrange(
                    0,
                    i as int,
                ).push(self.knownlits@[i as int]));
                lemma_lit_set_push(self.knownlits@.subrange(0, i as int), self.knownlits@[i as int]);
            }
            let ghost pre = r@;
            r.push(self.knownlits[i]);
            proof {
                lemma_lit_set_push(pre, self.knownlits@[i as int]);
            }
            i += 1;
        }
        proof {
            assert(self.knownlits@.subrange(0, self.knownlits@.len() as int) =~= self.knownlits@);
            assert forall|k: int| 0 <= k < lit_seq(r@).len() implies valid_lit(
                #[trigger] lit_seq(r@)[k],
            ) by {
                assert(lit_seq(r@)[k] == r@[k] as int);
                lemma_lit_set_contains(r@, k);
                if self.consetv().contains(r@[k] as int) {
                    lemma_lit_set_equiv(self.puzzleparse.conset_lits@, r@[k] as int);
                    let q = choose|q: int|
                        0 <= q < self.puzzleparse.conset_lits@.len()
                            && self.puzzleparse.conset_lits@[q] as int == r@[k] as int;
                    assert(lit_seq(self.puzzleparse.conset_lits@)[q]
                        == self.puzzleparse.conset_lits@[q] as int);
                } else {
                    lemma_lit_set_equiv(self.knownlits@, r@[k] as int);
                    let q = choose|q: int|
                        0 <= q < self.knownlits@.len() && self.knownlits@[q] as int == r@[k] as int;
                    assert(lit_seq(self.knownlits@)[q] == self.knownlits@[q] as int);
                }
            }
        }
        r
    }

    /// Whether the puzzle, under every constraint and everything known, still
    /// has at least one solution.
    pub fn is_currently_solvable(&mut self) -> (r: SearchResult<bool>)
        requires
            old(self).wf(),
        ensures
            final(self).wf(),
            final(self).cnfv() == old(self).cnfv(),
            final(self).consetv() == old(self).consetv(),
            final(self).knownv() == old(self).knownv(),
            r == Ok::<bool, SearchError>(true) ==> satisfiable(
                old(self).cnfv(),
                old(self).consetv().union(old(self).known_set()),
            ),
            r == Ok::<bool, SearchError>(false) ==> !satisfiable(
                old(self).cnfv(),
                old(self).consetv().union(old(self).known_set()),
            ),
    {
        let assumps = self.base_assumptions();
        let r = self.satcore.assumption_solve(&self.knownlits, &assumps);
        proof {
            if r == Ok::<bool, SearchError>(true) {
                lemma_satisfiable_subset(
                    self.cnfv(),
                    self.known_set().union(lit_set(assumps@)),
                    self.consetv().union(self.known_set()),
                );
            }
            if r == Ok::<bool, SearchError>(false) {
                lemma_unsat_superset(
                    self.cnfv(),
                    self.known_set().union(lit_set(assumps@)),
                    self.consetv().union(self.known_set()),
                );
            }
        }
        r
    }

    /// The set a literal must contradict to count as deducible: every
    /// constraint switched on, plus everything known.
    pub open spec fn base_set(&self) -> Set<int> {
        self.consetv().union(self.known_set())
    }

    /// Whether a literal is still open: a decision-variable literal (in the
    /// configured candidate set) neither known nor refuted.
    pub open spec fn is_candidate(&self, l: int) -> bool {
        &&& (if self.only_assignments_spec() {
            self.negsetv().contains(l)
        } else {
            self.varsetv().contains(l)
        })
        &&& !self.known_set().contains(l)
        &&& !self.known_set().contains(-l)
    }

    pub closed spec fn only_assignments_spec(&self) -> bool {
        self.solver_config.only_assignments
    }

    pub closed spec fn varsetv(&self) -> Set<int> {
        self.puzzleparse.varsetv()
    }

    pub closed spec fn negsetv(&self) -> Set<int> {
        lit_set(self.puzzleparse.varset_lits_neg@)
    }

    /// The literals one should still try to prove: candidates, sorted.
    pub fn get_literals_to_try_solving(&self) -> (r: Vec<i32>)
        requires
            self.wf(),
        ensures
            sorted_lits(r@),
            valid_lits(lit_seq(r@)),
            forall|l: int| lit_set(r@).contains(l) <==> self.is_candidate(l),
    {
        let source: &Vec<i32> = if self.solver_config.only_assignments {
            &self.puzzleparse.varset_lits_neg
        } else {
            &self.puzzleparse.varset_lits
        };
        let mut r: Vec<i32> = Vec::new();
        let mut i: usize = 0;
        proof {
            crate::cnf::lemma_lit_set_empty();
        }
        while i < source.len()
            invariant
                0 <= i <= source@.len(),
                self.wf(),
                source == if self.solver_config.only_assignments {
                    &self.puzzleparse.varset_lits_neg
                } else {
                    &self.puzzleparse.varset_lits
                },
                sorted_lits(source@),
                valid_lits(lit_seq(source@)),
                sorted_lits(r@),
                forall|l: int|
                    lit_set(r@).contains(l) <==> (lit_set(source@.subrange(0, i as int)).contains(l)
                        && !self.known_set().contains(l) && !self.known_set().contains(-l)),
            decreases source@.len() - i,
        {
            let l = source[i];
            proof {
                assert(lit_seq(source@)[i as int] == source@[i as int] as int);
                assert(source@.subrange(0, i + 1) =~= source@.subrange(0, i as int).push(
                    source@[i as int],
                ));
                lemma_lit_set_push(source@.subrange(0, i as int), source@[i as int]);
            }
            if !contains_lit(&self.knownlits, l) && !contains_lit(&self.knownlits, -l) {
                let ghost pre = r@;
                let next = insert_sorted(&r, l);
                r = next;
            }
            i += 1;
        }
        proof {
            assert(source@.subrange(0, source@.len() as int) =~= source@);
            assert forall|k: int| 0 <= k < lit_seq(r@).len() implies valid_lit(
                #[trigger] lit_seq(r@)[k],
            ) by {
                assert(lit_seq(r@)[k] == r@[k] as int);
                lemma_lit_set_contains(r@, k);
                lemma_lit_set_equiv(source@, r@[k] as int);
                let q = choose|q: int|
                    0 <= q < source@.len() && source@[q] as int == r@[k] as int;
                assert(lit_seq(source@)[q] == source@[q] as int);
            }
        }
        r
    }

    /// The decision-variable literals currently deducible: each one's
    /// negation contradicts the constraints and the known literals.
    ///
    /// The result is cached; a call that recomputes it (no cache present)
    /// additionally reports every open candidate as either deduced or
    /// consistent either way.
    pub fn get_provable_varlits(&mut self) -> (r: SearchResult<Vec<i32>>)
        requires
            old(self).wf(),
        ensures
            final(self).wf(),
            final(self).cnfv() == old(self).cnfv(),
            final(self).consetv() == old(self).consetv(),
            final(self).knownv() == old(self).knownv(),
            final(self).only_assignments_spec() == old(self).only_assignments_spec(),
            final(self).varsetv() == old(self).varsetv(),
            final(self).negsetv() == old(self).negsetv(),
            r matches Ok(v) ==> {
                &&& sorted_lits(v@)
                &&& valid_lits(lit_seq(v@))
                &&& forall|i: int|
                    0 <= i < v@.len() ==> !satisfiable(
                        old(self).cnfv(),
                        old(self).base_set().insert(-(#[trigger] v@[i] as int)),
                    )
            },
            // Each reported literal is new: not already known.
            r matches Ok(v) ==> forall|i: int|
                0 <= i < v@.len() ==> !old(self).known_set().contains(#[trigger] v@[i] as int),
            // Each reported literal negates a decision literal.
            r matches Ok(v) ==> forall|i: int|
                0 <= i < v@.len() ==> (if old(self).only_assignments_spec() {
                    old(self).negsetv()
                } else {
                    old(self).varsetv()
                }).contains(-(#[trigger] v@[i] as int)),
            // The result becomes the cache, and a present cache is returned
            // unchanged, so repeated calls agree.
            r matches Ok(v) ==> final(self).cachev() == Some(v@),
            old(self).cachev() matches Some(c) ==> (r matches Ok(v) && v@ == c),
            r matches Ok(v) ==> (old(self).cache_clear() ==> forall|l: int|
                old(self).is_candidate(l) ==> lit_set(v@).contains(-l) || satisfiable(
                    old(self).cnfv(),
                    old(self).base_set().insert(l),
                )),
            // A fresh computation reports only negations of open candidates.
            r matches Ok(v) ==> (old(self).cache_clear() ==> forall|l: int|
                lit_set(v@).contains(l) ==> old(self).is_candidate(-l)),
    {
        if let Some(cache) = &self.tosolvelits {
            let out = crate::musdict::copy_lits(cache);
            proof {
                let c = self.tosolvelits.unwrap();
                assert forall|i2: int| 0 <= i2 < out@.len() implies !old(
                    self,
                ).known_set().contains(#[trigger] out@[i2] as int) by {
                    assert(out@[i2] == c@[i2]);
                }
            }
            return Ok(out);
        }
        proof {
            assert(old(self).cachev() is None);
        }
        let candidates = self.get_literals_to_try_solving();
        let base = self.base_assumptions();
        let mut provable: Vec<i32> = Vec::new();
        let mut i: usize = 0;
        proof {
            crate::cnf::lemma_lit_set_empty();
        }
        while i < candidates.len()
            invariant
                0 <= i <= candidates@.len(),
                self.wf(),
                self.cnfv() == old(self).cnfv(),
                self.consetv() == old(self).consetv(),
                self.knownv() == old(self).knownv(),
                self.only_assignments_spec() == old(self).only_assignments_spec(),
                self.varsetv() == old(self).varsetv(),
                self.negsetv() == old(self).negsetv(),
                self.tosolvelits is None,
                old(self).cachev() is None,
                sorted_lits(candidates@),
                valid_lits(lit_seq(candidates@)),
                forall|l: int| lit_set(candidates@).contains(l) <==> old(self).is_candidate(l),
                valid_lits(lit_seq(base@)),
                lit_set(base@) =~= self.base_set(),
                sorted_lits(provable@),
                valid_lits(lit_seq(provable@)),
                forall|k: int|
                    0 <= k < provable@.len() ==> !satisfiable(
                        old(self).cnfv(),
                        old(self).base_set().insert(-(#[trigger] provable@[k] as int)),
                    ),
                forall|l: int|
                    lit_set(provable@).contains(l) ==> old(self).is_candidate(-l)
                        && !old(self).known_set().contains(l),
                forall|k: int|
                    0 <= k < i ==> lit_set(provable@).contains(
                        -(#[trigger] candidates@[k] as int),
                    ) || satisfiable(
                        old(self).cnfv(),
                        old(self).base_set().insert(candidates@[k] as int),
                    ),
            decreases candidates@.len() - i,
        {
            let l = candidates[i];
            proof {
                assert(lit_seq(candidates@)[i as int] == candidates@[i as int] as int);
            }
            let mut assumps = crate::musdict::copy_lits(&base);
            let ghost apre = assumps@;
            assumps.push(l);
            proof {
                lemma_lit_set_push(apre, l);
                assert forall|k: int| 0 <= k < lit_seq(assumps@).len() implies valid_lit(
                    #[trigger] lit_seq(assumps@)[k],
                ) by {
                    assert(lit_seq(assumps@)[k] == assumps@[k] as int);
                    if k < apre.len() {
                        assert(assumps@[k] == base@[k]);
                        assert(lit_seq(base@)[k] == base@[k] as int);
                    }
                }
            }
            match self.satcore.assumption_solve(&self.knownlits, &assumps) {
                Err(e) => {
                    return Err(e);
                },
                Ok(true) => {
                    // Both values are possible: nothing deducible here.
                    proof {
                        lemma_satisfiable_subset(
                            self.cnfv(),
                            self.known_set().union(lit_set(assumps@)),
                            self.base_set().insert(l as int),
                        );
                    }
                },
                Ok(false) => {
                    proof {
                        lemma_unsat_superset(
                            self.cnfv(),
                            self.known_set().union(lit_set(assumps@)),
                            self.base_set().insert(l as int),
                        );
                    }
                    let ghost ppre = provable@;
                    let neg = -l;
                    let next = insert_sorted(&provable, neg);
                    provable = next;
                    proof {
                        assert(lit_set(candidates@).contains(l as int)) by {
                            lemma_lit_set_contains(candidates@, i as int);
                        }
                        assert(old(self).is_candidate(l as int));
                        assert(lit_set(provable@) =~= lit_set(ppre).insert(neg as int));
                        assert forall|x: int| lit_set(provable@).contains(x) implies old(
                            self,
                        ).is_candidate(-x) && !old(self).known_set().contains(x) by {
                            if x != neg as int {
                                assert(lit_set(ppre).contains(x));
                            } else {
                                assert(-x == l as int);
                            }
                        }
                        assert(self.base_set().insert(-(neg as int)) =~= self.base_set().insert(
                            l as int,
                        ));
                        assert forall|k: int| 0 <= k < provable@.len() implies !satisfiable(
                            old(self).cnfv(),
                            old(self).base_set().insert(-(#[trigger] provable@[k] as int)),
                        ) by {
                            lemma_lit_set_contains(provable@, k);
                            if provable@[k] as int != neg as int {
                                lemma_lit_set_equiv(ppre, provable@[k] as int);
                                let q = choose|q: int|
                                    0 <= q < ppre.len() && ppre[q] as int == provable@[k] as int;
                            }
                        }
                        assert forall|k: int| 0 <= k < lit_seq(provable@).len() implies valid_lit(
                            #[trigger] lit_seq(provable@)[k],
                        ) by {
                            assert(lit_seq(provable@)[k] == provable@[k] as int);
                            lemma_lit_set_contains(provable@, k);
                            if provable@[k] as int != neg as int {
                                lemma_lit_set_equiv(ppre, provable@[k] as int);
                                let q = choose|q: int|
                                    0 <= q < ppre.len() && ppre[q] as int == provable@[k] as int;
                                assert(lit_seq(ppre)[q] == ppre[q] as int);
                            }
                        }
                    }
                },
            }
            proof {
                assert forall|k: int| 0 <= k < i + 1 implies lit_set(provable@).contains(
                    -(#[trigger] candidates@[k] as int),
                ) || satisfiable(
                    old(self).cnfv(),
                    old(self).base_set().insert(candidates@[k] as int),
                ) by {
                    if k < i {
                        if lit_set(provable@).contains(-(candidates@[k] as int)) {
                        } else if !satisfiable(
                            old(self).cnfv(),
                            old(self).base_set().insert(candidates@[k] as int),
                        ) {
                            // The set only grew, so earlier entries are kept.
                            assert(false);
                        }
                    }
                }
            }
            i += 1;
        }
        let out = crate::musdict::copy_lits(&provable);
        proof {
            assert forall|k: int| 0 <= k < provable@.len() implies (
            if self.only_assignments_spec() {
                self.negsetv()
            } else {
                self.varsetv()
            }).contains(-(#[trigger] provable@[k] as int)) by {
                lemma_lit_set_contains(provable@, k);
            }
        }
        self.tosolvelits = Some(provable);
        proof {
            assert forall|l: int| old(self).is_candidate(l) implies lit_set(out@).contains(-l)
                || satisfiable(old(self).cnfv(), old(self).base_set().insert(l)) by {
                assert(lit_set(candidates@).contains(l));
                lemma_lit_set_equiv(candidates@, l);
                let k = choose|k: int|
                    0 <= k < candidates@.len() && candidates@[k] as int == l;
            }
            let c = self.tosolvelits.unwrap();
            assert forall|k: int| 0 <= k < c@.len() implies !satisfiable(
                self.cnfv(),
                self.base_set().insert(-(#[trigger] c@[k] as int)),
            ) && !self.known_set().contains(c@[k] as int) by {
                lemma_lit_set_contains(c@, k);
            }
            assert forall|i2: int| 0 <= i2 < out@.len() implies !old(self).known_set().contains(
                #[trigger] out@[i2] as int,
            ) by {
                lemma_lit_set_contains(out@, i2);
            }
        }
        Ok(out)
    }

    /// Whether the provable-literal cache is absent, so the next query
    /// recomputes from scratch.
    pub open spec fn cache_clear(&self) -> bool {
        self.cachev() is None
    }

    /// Drops the provable-literal cache.
    pub fn invalidate_cache(&mut self)
        requires
            old(self).wf(),
        ensures
            final(self).wf(),
            final(self).cache_clear(),
            final(self).cnfv() == old(self).cnfv(),
            final(self).consetv() == old(self).consetv(),
            final(self).knownv() == old(self).knownv(),
            final(self).only_assignments_spec() == old(self).only_assignments_spec(),
            final(self).varsetv() == old(self).varsetv(),
            final(self).negsetv() == old(self).negsetv(),
    {
        self.tosolvelits = None;
    }

    /// Appends a literal to the known list, evicting it from the provable
    /// cache, and wiring any reveal relation it triggers.
    fn add_known_lit_internal(&mut self, lit: i32)
        requires
            old(self).wf(),
            valid_lit(lit as int),
        ensures
            final(self).wf(),
            final(self).cnfv() == old(self).cnfv(),
            final(self).consetv() == old(self).consetv(),
            final(self).only_assignments_spec() == old(self).only_assignments_spec(),
            final(self).varsetv() == old(self).varsetv(),
            final(self).negsetv() == old(self).negsetv(),
            old(self).knownv().is_prefix_of(final(self).knownv()),
            final(self).known_set().contains(lit as int),
            final(self).invmapv() == old(self).invmapv(),
            final(self).domainmapv() == old(self).domainmapv(),
            final(self).litmapv() == old(self).litmapv(),
            final(self).revealv() == old(self).revealv(),
            old(self).cachev() is None ==> final(self).cachev() is None,
            forall|ei: int, pi: int, ri: int|
                #[trigger] crate::puzzle::reveal_case(
                    old(self).invmapv(),
                    old(self).revealv(),
                    lit as int,
                    ei,
                    pi,
                    ri,
                ) ==> crate::puzzle::denial_known(
                    old(self).litmapv(),
                    crate::puzzle::reveal_target_view(
                        old(self).invmapv()[ei].1@[pi]@,
                        old(self).revealv()[ri].1@,
                    ),
                    final(self).known_set(),
                ),
            (exists|ei: int, pi: int, ri: int|
                #[trigger] crate::puzzle::reveal_case(
                    old(self).invmapv(),
                    old(self).revealv(),
                    lit as int,
                    ei,
                    pi,
                    ri,
                ) && crate::puzzle::litmap_key(
                    old(self).litmapv(),
                    crate::puzzle::reveal_target_view(
                        old(self).invmapv()[ei].1@[pi]@,
                        old(self).revealv()[ri].1@,
                    ),
                )) ==> final(self).cachev() is None,
    {
        if let Some(cache) = &self.tosolvelits {
            let trimmed = crate::litvec::remove_lit(cache, lit);
            proof {
                let c = self.tosolvelits.unwrap();
                assert forall|k: int| 0 <= k < trimmed@.len() implies !satisfiable(
                    self.cnfv(),
                    self.base_set().insert(-(#[trigger] trimmed@[k] as int)),
                ) by {
                    lemma_lit_set_contains(trimmed@, k);
                    assert(lit_set(c@).contains(trimmed@[k] as int));
                    lemma_lit_set_equiv(c@, trimmed@[k] as int);
                    let q = choose|q: int| 0 <= q < c@.len() && c@[q] as int == trimmed@[k] as int;
                }
                assert forall|k: int| 0 <= k < lit_seq(trimmed@).len() implies valid_lit(
                    #[trigger] lit_seq(trimmed@)[k],
                ) by {
                    assert(lit_seq(trimmed@)[k] == trimmed@[k] as int);
                    lemma_lit_set_contains(trimmed@, k);
                    assert(lit_set(c@).contains(trimmed@[k] as int));
                    lemma_lit_set_equiv(c@, trimmed@[k] as int);
                    let q = choose|q: int| 0 <= q < c@.len() && c@[q] as int == trimmed@[k] as int;
                    assert(lit_seq(c@)[q] == c@[q] as int);
                }
                assert forall|k: int| 0 <= k < trimmed@.len() implies (
                if self.only_assignments_spec() {
                    self.negsetv()
                } else {
                    self.varsetv()
                }).contains(-(#[trigger] trimmed@[k] as int)) by {
                    lemma_lit_set_contains(trimmed@, k);
                    lemma_lit_set_equiv(c@, trimmed@[k] as int);
                    let q = choose|q: int| 0 <= q < c@.len() && c@[q] as int == trimmed@[k] as int;
                }
            }
            self.tosolvelits = Some(trimmed);
        }
        let ghost kpre = self.knownlits@;
        self.knownlits.push(lit);
        proof {
            assert(kpre.is_prefix_of(self.knownlits@));
            lemma_lit_set_push(kpre, lit);
            assert forall|k: int| 0 <= k < lit_seq(self.knownlits@).len() implies valid_lit(
                #[trigger] lit_seq(self.knownlits@)[k],
            ) by {
                assert(lit_seq(self.knownlits@)[k] == self.knownlits@[k] as int);
                if k < kpre.len() {
                    assert(lit_seq(kpre)[k] == kpre[k] as int);
                }
            }
            lemma_lit_set_contains(self.knownlits@, self.knownlits@.len() - 1);
            // A larger known set keeps every cached deduction contradictory,
            // and the added literal was evicted, so the cache stays disjoint
            // from the known set.
            if self.tosolvelits is Some {
                let c = self.tosolvelits.unwrap();
                assert forall|k: int| 0 <= k < c@.len() implies !satisfiable(
                    self.cnfv(),
                    self.base_set().insert(-(#[trigger] c@[k] as int)),
                ) && !self.known_set().contains(c@[k] as int) by {
                    let oldbase = self.consetv().union(lit_set(kpre));
                    assert(!satisfiable(self.cnfv(), oldbase.insert(-(c@[k] as int))));
                    lemma_unsat_superset(
                        self.cnfv(),
                        oldbase.insert(-(c@[k] as int)),
                        self.base_set().insert(-(c@[k] as int)),
                    );
                    lemma_lit_set_contains(c@, k);
                    assert(c@[k] != lit);
                    assert(lit_set(self.knownlits@) =~= lit_set(kpre).insert(lit as int));
                }
            }
        }
        // Follow a reveal relation of this literal, if any.
        let ghost inv = old(self).invmapv();
        let ghost lm = old(self).litmapv();
        let ghost rv = old(self).revealv();
        let ghost mut ei0: int = 0;
        let mut have = false;
        let mut puzlits: Vec<crate::model::PuzLit> = Vec::new();
        match self.puzzleparse.lit_to_puzlit(lit) {
            Some(ps) => {
                proof {
                    ei0 = choose|w: int|
                        0 <= w < inv.len() && (#[trigger] inv[w]).0 == lit && inv[w].1@ == ps@
                            && crate::puzzle::invmap_first_at(inv, lit as int, w);
                }
                puzlits = crate::puzzle::copy_puzlits(ps);
                have = true;
            },
            None => {},
        };
        let mut i: usize = 0;
        while i < puzlits.len()
            invariant
                0 <= i <= puzlits@.len(),
                self.wf(),
                self.cnfv() == old(self).cnfv(),
                self.consetv() == old(self).consetv(),
                self.only_assignments_spec() == old(self).only_assignments_spec(),
                self.varsetv() == old(self).varsetv(),
                self.negsetv() == old(self).negsetv(),
                old(self).knownv().is_prefix_of(self.knownv()),
                self.known_set().contains(lit as int),
                self.invmapv() == inv,
                self.domainmapv() == old(self).domainmapv(),
                self.litmapv() == lm,
                self.revealv() == rv,
                old(self).cachev() is None ==> self.cachev() is None,
                have ==> crate::puzzle::invmap_first_at(inv, lit as int, ei0),
                have ==> inv[ei0].1@.len() == puzlits@.len(),
                have ==> forall|k: int|
                    0 <= k < puzlits@.len() ==> (#[trigger] puzlits@[k])@ == inv[ei0].1@[k]@,
                !have ==> !crate::puzzle::invmap_key(inv, lit as int),
                !have ==> puzlits@.len() == 0,
                forall|pi: int, ri: int|
                    (have && pi < i && #[trigger] crate::puzzle::reveal_case(
                        inv,
                        rv,
                        lit as int,
                        ei0,
                        pi,
                        ri,
                    )) ==> crate::puzzle::denial_known(
                        lm,
                        crate::puzzle::reveal_target_view(inv[ei0].1@[pi]@, rv[ri].1@),
                        self.known_set(),
                    ),
                (exists|pi: int, ri: int|
                    have && pi < i && #[trigger] crate::puzzle::reveal_case(
                        inv,
                        rv,
                        lit as int,
                        ei0,
                        pi,
                        ri,
                    ) && crate::puzzle::litmap_key(
                        lm,
                        crate::puzzle::reveal_target_view(inv[ei0].1@[pi]@, rv[ri].1@),
                    )) ==> self.cachev() is None,
            decreases puzlits@.len() - i,
        {
            let p = &puzlits[i];
            proof {
                assert(have);
            }
            let ghost pview = inv[ei0].1@[i as int]@;
            let sign = p.sign();
            if sign {
                let name = p.var().name().clone();
                let ghost mut ri0: int = 0;
                let mut rhave = false;
                match crate::puzzle::assoc_get(&self.puzzleparse.eprime.reveal, name.as_str()) {
                    Some(t) => {
                        proof {
                            ri0 = choose|w: int|
                                0 <= w < rv.len() && (#[trigger] rv[w]).0@ == name@ && rv[w].1@
                                    == t@ && crate::puzzle::assoc_first_at(rv, name@, w);
                        }
                        rhave = true;
                        let target = t.clone();
                        let var = p.var();
                        let old_indices = var.indices();
                        let mut indices: Vec<i64> = Vec::new();
                        let mut q: usize = 0;
                        while q < old_indices.len()
                            invariant
                                0 <= q <= old_indices@.len(),
                                indices@ =~= old_indices@.subrange(0, q as int),
                            decreases old_indices@.len() - q,
                        {
                            indices.push(old_indices[q]);
                            proof {
                                assert(old_indices@.subrange(0, q + 1) =~= old_indices@.subrange(
                                    0,
                                    q as int,
                                ).push(old_indices@[q as int]));
                            }
                            q += 1;
                        }
                        proof {
                            assert(old_indices@.subrange(0, old_indices@.len() as int)
                                =~= old_indices@);
                        }
                        indices.push(p.val());
                        proof {
                            assert(indices@ =~= pview.varval.var.indices.push(pview.varval.val));
                        }
                        let target_var = crate::model::PuzVar::new(target.as_str(), indices);
                        let target_pair = crate::model::VarValPair::new(&target_var, 1);
                        let target_puzlit = crate::model::PuzLit::new_eq(target_pair);
                        proof {
                            assert(target_puzlit@ == crate::puzzle::reveal_target_view(
                                pview,
                                rv[ri0].1@,
                            ));
                        }
                        match self.puzzleparse.puzlit_to_lit(&target_puzlit) {
                            Some(tl) => {
                                proof {
                                    assert(valid_lit(tl as int)) by {
                                        let w = choose|w: int|
                                            0 <= w < self.puzzleparse.litmap@.len() && (
                                            #[trigger] self.puzzleparse.litmap@[w]).0@
                                                == target_puzlit@ && self.puzzleparse.litmap@[
                                                w
                                            ].1 as int == tl as int;
                                        assert(valid_lit(self.puzzleparse.litmap@[w].1 as int));
                                    }
                                }
                                let ghost kp = self.knownlits@;
                                self.knownlits.push(tl);
                                self.tosolvelits = None;
                                proof {
                                    lemma_lit_set_push(kp, tl);
                                    assert forall|k: int|
                                        0 <= k < lit_seq(self.knownlits@).len() implies valid_lit(
                                        #[trigger] lit_seq(self.knownlits@)[k],
                                    ) by {
                                        assert(lit_seq(self.knownlits@)[k]
                                            == self.knownlits@[k] as int);
                                        if k < kp.len() {
                                            assert(lit_seq(kp)[k] == kp[k] as int);
                                        }
                                    }
                                    assert(old(self).knownv().is_prefix_of(self.knownv())) by {
                                        assert(old(self).knownv().is_prefix_of(kp));
                                        assert forall|k: int|
                                            0 <= k < old(self).knownv().len() implies old(
                                            self,
                                        ).knownv()[k] == self.knownv()[k] by {
                                            assert(old(self).knownv()[k] == kp[k]);
                                        }
                                    }
                                    assert(crate::puzzle::litmap_has(
                                        lm,
                                        target_puzlit@,
                                        tl as int,
                                    ));
                                    assert(self.known_set().contains(tl as int));
                                    assert(crate::puzzle::denial_known(
                                        lm,
                                        target_puzlit@,
                                        self.known_set(),
                                    )) by {
                                        assert forall|x: int|
                                            crate::puzzle::litmap_has(
                                                lm,
                                                target_puzlit@,
                                                x,
                                            ) implies self.known_set().contains(x) by {
                                            crate::puzzle::lemma_litmap_unique_value(
                                                lm,
                                                target_puzlit@,
                                                x,
                                                tl as int,
                                            );
                                        }
                                    }
                                    assert forall|pi: int, ri: int|
                                        (have && pi < i && #[trigger] crate::puzzle::reveal_case(
                                            inv,
                                            rv,
                                            lit as int,
                                            ei0,
                                            pi,
                                            ri,
                                        )) implies crate::puzzle::denial_known(
                                        lm,
                                        crate::puzzle::reveal_target_view(
                                            inv[ei0].1@[pi]@,
                                            rv[ri].1@,
                                        ),
                                        self.known_set(),
                                    ) by {
                                        assert forall|x: int|
                                            crate::puzzle::litmap_has(
                                                lm,
                                                crate::puzzle::reveal_target_view(
                                                    inv[ei0].1@[pi]@,
                                                    rv[ri].1@,
                                                ),
                                                x,
                                            ) implies self.known_set().contains(x) by {
                                            assert(lit_set(kp).contains(x));
                                        }
                                    }
                                }
                            },
                            None => {
                                proof {
                                    assert forall|x: int|
                                        crate::puzzle::litmap_has(
                                            lm,
                                            target_puzlit@,
                                            x,
                                        ) implies self.known_set().contains(x) by {
                                        let w = choose|w: int|
                                            0 <= w < lm.len() && (#[trigger] lm[w]).0@
                                                == target_puzlit@ && lm[w].1 as int == x;
                                        assert(crate::puzzle::litmap_key(lm, target_puzlit@));
                                    }
                                }
                            },
                        }
                    },
                    None => {},
                }
                proof {
                    assert forall|pi: int, ri: int|
                        (have && pi < i + 1 && #[trigger] crate::puzzle::reveal_case(
                            inv,
                            rv,
                            lit as int,
                            ei0,
                            pi,
                            ri,
                        )) implies crate::puzzle::denial_known(
                        lm,
                        crate::puzzle::reveal_target_view(inv[ei0].1@[pi]@, rv[ri].1@),
                        self.known_set(),
                    ) by {
                        if pi == i as int {
                            assert(inv[ei0].1@[pi]@.varval.var.name == name@);
                            if rhave {
                                crate::puzzle::lemma_assoc_first_unique(rv, name@, ri, ri0);
                            } else {
                                assert(rv[ri].0@ == name@);
                                assert(crate::puzzle::assoc_has(rv, name@));
                            }
                        }
                    }
                }
            } else {
                proof {
                    assert(!pview.equal);
                    assert forall|pi: int, ri: int|
                        (have && pi < i + 1 && #[trigger] crate::puzzle::reveal_case(
                            inv,
                            rv,
                            lit as int,
                            ei0,
                            pi,
                            ri,
                        )) implies crate::puzzle::denial_known(
                        lm,
                        crate::puzzle::reveal_target_view(inv[ei0].1@[pi]@, rv[ri].1@),
                        self.known_set(),
                    ) by {
                        if pi == i as int {
                            assert(inv[ei0].1@[pi]@.equal);
                        }
                    }
                }
            }
            i += 1;
        }
        proof {
            assert forall|ei: int, pi: int, ri: int|
                #[trigger] crate::puzzle::reveal_case(
                    inv,
                    rv,
                    lit as int,
                    ei,
                    pi,
                    ri,
                ) implies crate::puzzle::denial_known(
                lm,
                crate::puzzle::reveal_target_view(inv[ei].1@[pi]@, rv[ri].1@),
                self.known_set(),
            ) by {
                if have {
                    crate::puzzle::lemma_invmap_first_unique(inv, lit as int, ei, ei0);
                } else {
                    assert(crate::puzzle::invmap_key(inv, lit as int)) by {
                        assert(0 <= ei < inv.len() && inv[ei].0 as int == lit as int);
                    }
                }
            }
            if exists|ei: int, pi: int, ri: int|
                #[trigger] crate::puzzle::reveal_case(inv, rv, lit as int, ei, pi, ri)
                    && crate::puzzle::litmap_key(
                    lm,
                    crate::puzzle::reveal_target_view(inv[ei].1@[pi]@, rv[ri].1@),
                ) {
                let (ei, pi, ri) = choose|ei: int, pi: int, ri: int|
                    #[trigger] crate::puzzle::reveal_case(inv, rv, lit as int, ei, pi, ri)
                        && crate::puzzle::litmap_key(
                        lm,
                        crate::puzzle::reveal_target_view(inv[ei].1@[pi]@, rv[ri].1@),
                    );
                if have {
                    crate::puzzle::lemma_invmap_first_unique(inv, lit as int, ei, ei0);
                    assert(self.cachev() is None);
                } else {
                    assert(crate::puzzle::invmap_key(inv, lit as int)) by {
                        assert(0 <= ei < inv.len() && inv[ei].0 as int == lit as int);
                    }
                }
            }
        }
    }

    /// Marks a literal as known without any deducibility check, also
    /// recording, for a positive assignment, that the variable's other
    /// values are excluded: for a newly known literal, every SAT literal the
    /// map binds to a denial of another domain value of an assigned
    /// variable becomes known too.
    pub fn add_known_lit_unchecked(&mut self, lit: i32)
        requires
            old(self).wf(),
            valid_lit(lit as int),
        ensures
            final(self).wf(),
            final(self).cnfv() == old(self).cnfv(),
            final(self).consetv() == old(self).consetv(),
            final(self).only_assignments_spec() == old(self).only_assignments_spec(),
            final(self).varsetv() == old(self).varsetv(),
            final(self).negsetv() == old(self).negsetv(),
            old(self).knownv().is_prefix_of(final(self).knownv()),
            old(self).known_set().contains(lit as int) ==> *final(self) == *old(self),
            final(self).known_set().contains(lit as int),
            final(self).invmapv() == old(self).invmapv(),
            final(self).domainmapv() == old(self).domainmapv(),
            final(self).litmapv() == old(self).litmapv(),
            !old(self).known_set().contains(lit as int) ==> forall|ei: int, pi: int, di: int, qi: int|
                #[trigger] crate::puzzle::exclusion_case(
                    old(self).invmapv(),
                    old(self).domainmapv(),
                    lit as int,
                    ei,
                    pi,
                    di,
                    qi,
                ) ==> crate::puzzle::denial_known(
                    old(self).litmapv(),
                    crate::puzzle::denial_view(
                        old(self).invmapv()[ei].1@[pi]@.varval.var,
                        old(self).domainmapv()[di].1@[qi],
                    ),
                    final(self).known_set(),
                ),
            final(self).revealv() == old(self).revealv(),
            !old(self).known_set().contains(lit as int) ==> forall|ei: int, pi: int, ri: int|
                #[trigger] crate::puzzle::reveal_case(
                    old(self).invmapv(),
                    old(self).revealv(),
                    lit as int,
                    ei,
                    pi,
                    ri,
                ) ==> crate::puzzle::denial_known(
                    old(self).litmapv(),
                    crate::puzzle::reveal_target_view(
                        old(self).invmapv()[ei].1@[pi]@,
                        old(self).revealv()[ri].1@,
                    ),
                    final(self).known_set(),
                ),
            (!old(self).known_set().contains(lit as int) && (exists|ei: int, pi: int, ri: int|
                #[trigger] crate::puzzle::reveal_case(
                    old(self).invmapv(),
                    old(self).revealv(),
                    lit as int,
                    ei,
                    pi,
                    ri,
                ) && crate::puzzle::litmap_key(
                    old(self).litmapv(),
                    crate::puzzle::reveal_target_view(
                        old(self).invmapv()[ei].1@[pi]@,
                        old(self).revealv()[ri].1@,
                    ),
                ))) ==> final(self).cachev() is None,
    {
        if contains_lit(&self.knownlits, lit) {
            proof {
                lemma_lit_set_equiv(self.knownlits@, lit as int);
            }
            return ;
        }
        let ghost inv = self.invmapv();
        let ghost dm = self.domainmapv();
        let ghost lm = self.litmapv();
        let ghost rv = self.revealv();
        self.add_known_lit_internal(lit);
        let ghost k1 = self.knownv();
        let ghost cache_gone = self.cachev() is None;
        // A positive assignment excludes the variable's other values.
        let ghost mut ei0: int = 0;
        let mut have = false;
        let mut puzlits: Vec<crate::model::PuzLit> = Vec::new();
        match self.puzzleparse.lit_to_puzlit(lit) {
            Some(ps) => {
                proof {
                    ei0 = choose|w: int|
                        0 <= w < inv.len() && (#[trigger] inv[w]).0 == lit && inv[w].1@ == ps@
                            && crate::puzzle::invmap_first_at(inv, lit as int, w);
                }
                puzlits = crate::puzzle::copy_puzlits(ps);
                have = true;
            },
            None => {},
        };
        let mut i: usize = 0;
        while i < puzlits.len()
            invariant
                0 <= i <= puzlits@.len(),
                self.wf(),
                self.cnfv() == old(self).cnfv(),
                self.consetv() == old(self).consetv(),
                self.only_assignments_spec() == old(self).only_assignments_spec(),
                self.varsetv() == old(self).varsetv(),
                self.negsetv() == old(self).negsetv(),
                old(self).knownv().is_prefix_of(self.knownv()),
                self.known_set().contains(lit as int),
                self.invmapv() == inv,
                self.domainmapv() == dm,
                self.litmapv() == lm,
                self.revealv() == rv,
                k1.is_prefix_of(self.knownv()),
                cache_gone ==> self.cachev() is None,
                have ==> crate::puzzle::invmap_first_at(inv, lit as int, ei0),
                have ==> inv[ei0].1@.len() == puzlits@.len(),
                have ==> forall|k: int|
                    0 <= k < puzlits@.len() ==> (#[trigger] puzlits@[k])@ == inv[ei0].1@[k]@,
                !have ==> !crate::puzzle::invmap_key(inv, lit as int),
                !have ==> puzlits@.len() == 0,
                forall|pi: int, di: int, qi: int|
                    (have && pi < i && #[trigger] crate::puzzle::exclusion_case(
                        inv,
                        dm,
                        lit as int,
                        ei0,
                        pi,
                        di,
                        qi,
                    )) ==> crate::puzzle::denial_known(
                        lm,
                        crate::puzzle::denial_view(inv[ei0].1@[pi]@.varval.var, dm[di].1@[qi]),
                        self.known_set(),
                    ),
            decreases puzlits@.len() - i,
        {
            let p = &puzlits[i];
            let ghost pview = inv[ei0].1@[i as int]@;
            let sign = p.sign();
            let var = p.var();
            let val = p.val();
            if sign {
                let ghost mut di0: int = 0;
                let mut dhave = false;
                let mut domain: Vec<i64> = Vec::new();
                match crate::puzzle::domainmap_get(&self.puzzleparse.domainmap, &var) {
                    Some(d) => {
                        proof {
                            di0 = choose|w: int|
                                0 <= w < dm.len() && (#[trigger] dm[w]).0@ == var@ && dm[w].1@
                                    == d@ && crate::puzzle::domainmap_first_at(dm, var@, w);
                        }
                        domain = crate::musdict::copy_i64s(d);
                        dhave = true;
                    },
                    None => {},
                };
                let mut q: usize = 0;
                while q < domain.len()
                    invariant
                        0 <= q <= domain@.len(),
                        self.wf(),
                        self.cnfv() == old(self).cnfv(),
                        self.consetv() == old(self).consetv(),
                        self.only_assignments_spec() == old(self).only_assignments_spec(),
                        self.varsetv() == old(self).varsetv(),
                        self.negsetv() == old(self).negsetv(),
                        old(self).knownv().is_prefix_of(self.knownv()),
                        self.known_set().contains(lit as int),
                        self.invmapv() == inv,
                        self.domainmapv() == dm,
                        self.litmapv() == lm,
                        self.revealv() == rv,
                        k1.is_prefix_of(self.knownv()),
                        cache_gone ==> self.cachev() is None,
                        have,
                        crate::puzzle::invmap_first_at(inv, lit as int, ei0),
                        inv[ei0].1@.len() == puzlits@.len(),
                        0 <= i < puzlits@.len(),
                        pview == inv[ei0].1@[i as int]@,
                        var@ == pview.varval.var,
                        val == pview.varval.val,
                        dhave ==> crate::puzzle::domainmap_first_at(dm, var@, di0),
                        dhave ==> dm[di0].1@ == domain@,
                        !dhave ==> forall|w: int|
                            0 <= w < dm.len() ==> (#[trigger] dm[w]).0@ != var@,
                        !dhave ==> domain@.len() == 0,
                        forall|pi: int, di: int, qi: int|
                            (pi < i && #[trigger] crate::puzzle::exclusion_case(
                                inv,
                                dm,
                                lit as int,
                                ei0,
                                pi,
                                di,
                                qi,
                            )) ==> crate::puzzle::denial_known(
                                lm,
                                crate::puzzle::denial_view(
                                    inv[ei0].1@[pi]@.varval.var,
                                    dm[di].1@[qi],
                                ),
                                self.known_set(),
                            ),
                        forall|qi: int|
                            (dhave && 0 <= qi < q && #[trigger] dm[di0].1@[qi] != val)
                                ==> crate::puzzle::denial_known(
                                lm,
                                crate::puzzle::denial_view(var@, dm[di0].1@[qi]),
                                self.known_set(),
                            ),
                    decreases domain@.len() - q,
                {
                    let d = domain[q];
                    if d != val {
                        let new_puzlit = crate::model::PuzLit::new_neq(
                            crate::model::VarValPair::new(&var, d),
                        );
                        proof {
                            assert(new_puzlit@ == crate::puzzle::denial_view(var@, d));
                        }
                        match self.puzzleparse.puzlit_to_lit(&new_puzlit) {
                            Some(nl) => {
                                proof {
                                    assert(valid_lit(nl as int)) by {
                                        let w = choose|w: int|
                                            0 <= w < self.puzzleparse.litmap@.len() && (
                                            #[trigger] self.puzzleparse.litmap@[w]).0@
                                                == new_puzlit@ && self.puzzleparse.litmap@[
                                                w
                                            ].1 as int == nl as int;
                                        assert(valid_lit(self.puzzleparse.litmap@[w].1 as int));
                                    }
                                }
                                let already = contains_lit(&self.knownlits, nl);
                                let ghost kb = self.knownv();
                                if !already {
                                    self.add_known_lit_internal(nl);
                                    proof {
                                        crate::cnf::lemma_lit_set_prefix(kb, self.knownv());
                                        assert(k1.is_prefix_of(self.knownv())) by {
                                            assert(k1.is_prefix_of(kb));
                                            assert forall|k: int|
                                                0 <= k < k1.len() implies k1[k]
                                                == self.knownv()[k] by {
                                                assert(k1[k] == kb[k]);
                                            }
                                        }
                                        assert(old(self).knownv().is_prefix_of(self.knownv()))
                                            by {
                                            assert(old(self).knownv().is_prefix_of(kb));
                                            assert forall|k: int|
                                                0 <= k < old(self).knownv().len() implies old(
                                                self,
                                            ).knownv()[k] == self.knownv()[k] by {
                                                assert(old(self).knownv()[k] == kb[k]);
                                            }
                                        }
                                    }
                                }
                                proof {
                                    assert(lit_set(kb).subset_of(self.known_set())) by {
                                        if !already {
                                            crate::cnf::lemma_lit_set_prefix(kb, self.knownv());
                                        }
                                    }
                                    assert(self.known_set().contains(nl as int));
                                    assert(crate::puzzle::litmap_has(lm, new_puzlit@, nl as int));
                                    assert(crate::puzzle::denial_known(
                                        lm,
                                        new_puzlit@,
                                        self.known_set(),
                                    )) by {
                                        assert forall|x: int|
                                            crate::puzzle::litmap_has(
                                                lm,
                                                new_puzlit@,
                                                x,
                                            ) implies self.known_set().contains(x) by {
                                            crate::puzzle::lemma_litmap_unique_value(
                                                lm,
                                                new_puzlit@,
                                                x,
                                                nl as int,
                                            );
                                        }
                                    }
                                    assert forall|pi: int, di: int, qi: int|
                                        (pi < i && #[trigger] crate::puzzle::exclusion_case(
                                            inv,
                                            dm,
                                            lit as int,
                                            ei0,
                                            pi,
                                            di,
                                            qi,
                                        )) implies crate::puzzle::denial_known(
                                        lm,
                                        crate::puzzle::denial_view(
                                            inv[ei0].1@[pi]@.varval.var,
                                            dm[di].1@[qi],
                                        ),
                                        self.known_set(),
                                    ) by {
                                        assert forall|x: int|
                                            crate::puzzle::litmap_has(
                                                lm,
                                                crate::puzzle::denial_view(
                                                    inv[ei0].1@[pi]@.varval.var,
                                                    dm[di].1@[qi],
                                                ),
                                                x,
                                            ) implies self.known_set().contains(x) by {
                                            assert(lit_set(kb).contains(x));
                                        }
                                    }
                                    assert forall|qi: int|
                                        (dhave && 0 <= qi < q && #[trigger] dm[di0].1@[qi]
                                            != val) implies crate::puzzle::denial_known(
                                        lm,
                                        crate::puzzle::denial_view(var@, dm[di0].1@[qi]),
                                        self.known_set(),
                                    ) by {
                                        assert forall|x: int|
                                            crate::puzzle::litmap_has(
                                                lm,
                                                crate::puzzle::denial_view(var@, dm[di0].1@[qi]),
                                                x,
                                            ) implies self.known_set().contains(x) by {
                                            assert(lit_set(kb).contains(x));
                                        }
                                    }
                                }
                            },
                            None => {
                                proof {
                                    assert forall|x: int|
                                        crate::puzzle::litmap_has(
                                            lm,
                                            new_puzlit@,
                                            x,
                                        ) implies self.known_set().contains(x) by {
                                        let w = choose|w: int|
                                            0 <= w < lm.len() && (#[trigger] lm[w]).0@
                                                == new_puzlit@ && lm[w].1 as int == x;
                                        assert(crate::puzzle::litmap_key(lm, new_puzlit@));
                                    }
                                }
                            },
                        }
                        proof {
                            assert(d == dm[di0].1@[q as int]);
                            assert(crate::puzzle::denial_known(
                                lm,
                                crate::puzzle::denial_view(var@, d),
                                self.known_set(),
                            ));
                        }
                    }
                    q += 1;
                }
                proof {
                    assert forall|pi: int, di: int, qi: int|
                        (pi < i + 1 && #[trigger] crate::puzzle::exclusion_case(
                            inv,
                            dm,
                            lit as int,
                            ei0,
                            pi,
                            di,
                            qi,
                        )) implies crate::puzzle::denial_known(
                        lm,
                        crate::puzzle::denial_view(inv[ei0].1@[pi]@.varval.var, dm[di].1@[qi]),
                        self.known_set(),
                    ) by {
                        if pi == i as int {
                            assert(inv[ei0].1@[pi]@.varval.var == var@);
                            if dhave {
                                crate::puzzle::lemma_domainmap_first_unique(dm, var@, di, di0);
                                assert(dm[di0].1@[qi] != val);
                            } else {
                                assert(dm[di].0@ == var@);
                                assert(dm[di].0@ != var@);
                            }
                        }
                    }
                }
            } else {
                proof {
                    assert(!pview.equal);
                    assert forall|pi: int, di: int, qi: int|
                        (pi < i + 1 && #[trigger] crate::puzzle::exclusion_case(
                            inv,
                            dm,
                            lit as int,
                            ei0,
                            pi,
                            di,
                            qi,
                        )) implies crate::puzzle::denial_known(
                        lm,
                        crate::puzzle::denial_view(inv[ei0].1@[pi]@.varval.var, dm[di].1@[qi]),
                        self.known_set(),
                    ) by {
                        if pi == i as int {
                            assert(inv[ei0].1@[pi]@.equal);
                        }
                    }
                }
            }
            i += 1;
        }
        proof {
            assert forall|ei: int, pi: int, di: int, qi: int|
                #[trigger] crate::puzzle::exclusion_case(
                    inv,
                    dm,
                    lit as int,
                    ei,
                    pi,
                    di,
                    qi,
                ) implies crate::puzzle::denial_known(
                lm,
                crate::puzzle::denial_view(inv[ei].1@[pi]@.varval.var, dm[di].1@[qi]),
                self.known_set(),
            ) by {
                if have {
                    crate::puzzle::lemma_invmap_first_unique(inv, lit as int, ei, ei0);
                } else {
                    assert(crate::puzzle::invmap_key(inv, lit as int)) by {
                        assert(0 <= ei < inv.len() && inv[ei].0 as int == lit as int);
                    }
                }
            }
            crate::cnf::lemma_lit_set_prefix(k1, self.knownv());
            assert forall|ei: int, pi: int, ri: int|
                #[trigger] crate::puzzle::reveal_case(
                    inv,
                    rv,
                    lit as int,
                    ei,
                    pi,
                    ri,
                ) implies crate::puzzle::denial_known(
                lm,
                crate::puzzle::reveal_target_view(inv[ei].1@[pi]@, rv[ri].1@),
                self.known_set(),
            ) by {
                assert(crate::puzzle::denial_known(
                    lm,
                    crate::puzzle::reveal_target_view(inv[ei].1@[pi]@, rv[ri].1@),
                    lit_set(k1),
                ));
                assert forall|x: int|
                    crate::puzzle::litmap_has(
                        lm,
                        crate::puzzle::reveal_target_view(inv[ei].1@[pi]@, rv[ri].1@),
                        x,
                    ) implies self.known_set().contains(x) by {
                    assert(lit_set(k1).contains(x));
                }
            }
        }
    }

    /// Marks a deduced literal as known.  Adding a literal that is already
    /// known changes nothing.
    pub fn add_known_lit(&mut self, lit: i32)
        requires
            old(self).wf(),
            valid_lit(lit as int),
        ensures
            final(self).wf(),
            final(self).cnfv() == old(self).cnfv(),
            final(self).consetv() == old(self).consetv(),
            final(self).only_assignments_spec() == old(self).only_assignments_spec(),
            final(self).varsetv() == old(self).varsetv(),
            final(self).negsetv() == old(self).negsetv(),
            old(self).knownv().is_prefix_of(final(self).knownv()),
            old(self).known_set().contains(lit as int) ==> *final(self) == *old(self),
            final(self).known_set().contains(lit as int),
    {
        if contains_lit(&self.knownlits, lit) {
            proof {
                lemma_lit_set_equiv(self.knownlits@, lit as int);
            }
            return ;
        }
        self.add_known_lit_unchecked(lit);
    }

    /// Marks a literal as known that was not deduced (outside information);
    /// the provable cache is dropped, since new deductions may follow.
    pub fn add_not_provable_known_lit(&mut self, lit: i32)
        requires
            old(self).wf(),
            valid_lit(lit as int),
        ensures
            final(self).wf(),
            final(self).cache_clear(),
            final(self).cnfv() == old(self).cnfv(),
            final(self).consetv() == old(self).consetv(),
            final(self).only_assignments_spec() == old(self).only_assignments_spec(),
            final(self).varsetv() == old(self).varsetv(),
            final(self).negsetv() == old(self).negsetv(),
            old(self).knownv().is_prefix_of(final(self).knownv()),
            final(self).known_set().contains(lit as int),
    {
        self.add_known_lit_unchecked(lit);
        self.tosolvelits = None;
    }

    /// Whether the literal is entailed by the known literals and unit facts
    /// alone: a minimal unsatisfiable subset of size zero.
    ///
    /// A solver timeout counts as no.
    pub fn check_var_mus_size_0(&mut self, lit: i32) -> (r: bool)
        requires
            old(self).wf(),
            valid_lit(lit as int),
        ensures
            final(self).wf(),
            final(self).cnfv() == old(self).cnfv(),
            final(self).consetv() == old(self).consetv(),
            final(self).knownv() == old(self).knownv(),
            final(self).only_assignments_spec() == old(self).only_assignments_spec(),
            final(self).varsetv() == old(self).varsetv(),
            final(self).negsetv() == old(self).negsetv(),
            r ==> !satisfiable(
                old(self).cnfv(),
                old(self).known_set().insert(-(lit as int)),
            ),
    {
        let neg = -lit;
        let mut just_lit: Vec<i32> = Vec::new();
        just_lit.push(neg);
        proof {
            crate::cnf::lemma_lit_set_empty();
            lemma_lit_set_push(Seq::<i32>::empty(), neg);
        }
        match self.satcore.assumption_solve(&self.knownlits, &just_lit) {
            Ok(solvable) => {
                proof {
                    if !solvable {
                        assert(self.known_set().union(lit_set(just_lit@)) =~= self.known_set().insert(
                            -(lit as int),
                        ));
                    }
                }
                !solvable
            },
            Err(_) => false,
        }
    }


    /// What a good MUS for `lit` is: distinct constraint literals that,
    /// with everything known and the denial of `lit`, cannot be satisfied,
    /// while dropping any one of them restores satisfiability.
    pub open spec fn mus_found_good(&self, lit: i32, m: Seq<i32>) -> bool {
        &&& m.no_duplicates()
        &&& valid_lits(lit_seq(m))
        &&& lit_set(m).subset_of(self.consetv())
        &&& !satisfiable(self.cnfv(), self.known_set().insert(-(lit as int)).union(lit_set(m)))
        &&& forall|i: int|
            0 <= i < m.len() ==> satisfiable(
                self.cnfv(),
                self.known_set().insert(-(lit as int)).union(
                    lit_set(m).remove(#[trigger] m[i] as int),
                ),
            )
    }

    /// The state visible to deduction queries is unchanged.
    pub open spec fn same_deduction_state(&self, other: &Self) -> bool {
        &&& self.cnfv() == other.cnfv()
        &&& self.consetv() == other.consetv()
        &&& self.knownv() == other.knownv()
        &&& self.only_assignments_spec() == other.only_assignments_spec()
        &&& self.varsetv() == other.varsetv()
        &&& self.negsetv() == other.negsetv()
    }

    /// The known literals together with the denial of `lit`.
    fn known_plus_neg(&self, lit: i32) -> (r: Vec<i32>)
        requires
            self.wf(),
            valid_lit(lit as int),
        ensures
            valid_lits(lit_seq(r@)),
            lit_set(r@) =~= self.known_set().insert(-(lit as int)),
    {
        let mut r = crate::musdict::copy_lits(&self.knownlits);
        let ghost pre = r@;
        let neg = -lit;
        r.push(neg);
        proof {
            lemma_lit_set_push(pre, neg);
            assert forall|k: int| 0 <= k < lit_seq(r@).len() implies valid_lit(
                #[trigger] lit_seq(r@)[k],
            ) by {
                assert(lit_seq(r@)[k] == r@[k] as int);
                if k < pre.len() {
                    assert(lit_seq(self.knownlits@)[k] == self.knownlits@[k] as int);
                }
            }
        }
        r
    }

    /// A deletion-based MUS over the full constraint set.
    pub fn get_var_mus_quick(&mut self, lit: i32, max_size: Option<i64>) -> (r: SearchResult<
        Option<Vec<i32>>,
    >)
        requires
            old(self).wf(),
            valid_lit(lit as int),
        ensures
            final(self).wf(),
            final(self).same_deduction_state(old(self)),
            r matches Ok(Some(m)) ==> old(self).mus_found_good(lit, m@),
            r == Ok::<Option<Vec<i32>>, SearchError>(None) && max_size is None ==> satisfiable(
                old(self).cnfv(),
                old(self).known_set().insert(-(lit as int)).union(old(self).consetv()),
            ),
    {
        let known2 = self.known_plus_neg(lit);
        proof {
            assert(valid_lits(lit_seq(self.puzzleparse.conset_lits@)));
        }
        let r = self.satcore.quick_mus(&known2, &self.puzzleparse.conset_lits, max_size);
        proof {
            if r is Ok && r->Ok_0 is Some {
                let m = r->Ok_0->Some_0;
                assert(lit_set(known2@) == self.known_set().insert(-(lit as int)));
                assert forall|i: int| 0 <= i < m@.len() implies satisfiable(
                    self.cnfv(),
                    self.known_set().insert(-(lit as int)).union(
                        lit_set(m@).remove(#[trigger] m@[i] as int),
                    ),
                ) by {
                    assert(satisfiable(
                        self.cnfv(),
                        lit_set(known2@).union(lit_set(m@).remove(m@[i] as int)),
                    ));
                }
            }
        }
        r
    }

    /// How many constraints the slice heuristic drops, aiming at an 80%
    /// chance of leaving a MUS of the target size intact.  Computed in fixed
    /// point; never more than half the set.
    pub fn slice_trim_count(max_size: Option<i64>, len: usize) -> (r: usize)
        ensures
            r <= len / 2,
    {
        let mut p: u64 = 4000;
        if let Some(s) = max_size {
            if s > 0 && len > 0 && len < 1000000000 {
                if (s as u64) < (len as u64) {
                    let su = s as u64;
                    let lu = len as u64;
                    proof {
                        assert((su as int) * 10000 <= (lu as int) * 10000) by (nonlinear_arith)
                            requires su <= lu;
                        assert((lu as int) * 10000 < 10000000000000) by (nonlinear_arith)
                            requires lu < 1000000000;
                        assert((su as int) * 10000 / (lu as int) <= 10000) by (nonlinear_arith)
                            requires su < lu && lu > 0;
                    }
                    p = 10000 - su * 10000 / lu;
                }
            }
        }
        if p < 4000 {
            p = 4000;
        }
        if p > 9999 {
            p = 9999;
        }
        let mut acc: u64 = 1000000;
        let mut t: usize = 0;
        while t < len / 2
            invariant
                t <= len / 2,
                acc <= 1000000,
                4000 <= p <= 9999,
            decreases len / 2 - t,
        {
            proof {
                assert((acc as int) * (p as int) <= 1000000 * 9999) by (nonlinear_arith)
                    requires acc <= 1000000 && p <= 9999;
                assert((acc as int) * (p as int) / 10000 <= 1000000) by (nonlinear_arith)
                    requires acc <= 1000000 && p <= 9999;
            }
            let next = acc * p / 10000;
            if next < 800000 {
                break;
            }
            acc = next;
            t += 1;
        }
        t
    }

    /// A deletion-based MUS over a random slice of the constraints: part of
    /// the set is dropped first, so the search may fail where a MUS exists.
    pub fn get_var_mus_slice(&mut self, lit: i32, max_size: Option<i64>) -> (r: SearchResult<
        Option<Vec<i32>>,
    >)
        requires
            old(self).wf(),
            valid_lit(lit as int),
        ensures
            final(self).wf(),
            final(self).same_deduction_state(old(self)),
            r matches Ok(Some(m)) ==> old(self).mus_found_good(lit, m@),
    {
        let mut conset = crate::musdict::copy_lits(&self.puzzleparse.conset_lits);
        proof {
            assert(valid_lits(lit_seq(conset@)));
        }
        crate::rng::shuffle_lits_thread(&mut conset);
        let trims = Self::slice_trim_count(max_size, conset.len());
        let mut candidates: Vec<i32> = Vec::new();
        let mut i: usize = trims;
        proof {
            crate::cnf::lemma_lit_set_empty();
        }
        while i < conset.len()
            invariant
                trims <= i <= conset@.len(),
                lit_set(candidates@).subset_of(lit_set(conset@)),
            decreases conset@.len() - i,
        {
            let ghost cpre = candidates@;
            candidates.push(conset[i]);
            proof {
                lemma_lit_set_push(cpre, conset@[i as int]);
                lemma_lit_set_contains(conset@, i as int);
            }
            i += 1;
        }
        proof {
            assert(lit_set(candidates@).subset_of(self.consetv()));
            assert forall|k: int| 0 <= k < lit_seq(candidates@).len() implies valid_lit(
                #[trigger] lit_seq(candidates@)[k],
            ) by {
                assert(lit_seq(candidates@)[k] == candidates@[k] as int);
                lemma_lit_set_contains(candidates@, k);
                lemma_lit_set_equiv(self.puzzleparse.conset_lits@, candidates@[k] as int);
                let q = choose|q: int|
                    0 <= q < self.puzzleparse.conset_lits@.len()
                        && self.puzzleparse.conset_lits@[q] as int == candidates@[k] as int;
                assert(lit_seq(self.puzzleparse.conset_lits@)[q]
                    == self.puzzleparse.conset_lits@[q] as int);
            }
        }
        let known2 = self.known_plus_neg(lit);
        let r = self.satcore.quick_mus(&known2, &candidates, max_size);
        proof {
            if r is Ok && r->Ok_0 is Some {
                let m = r->Ok_0->Some_0;
                assert(lit_set(known2@) == self.known_set().insert(-(lit as int)));
                assert forall|i2: int| 0 <= i2 < m@.len() implies satisfiable(
                    self.cnfv(),
                    self.known_set().insert(-(lit as int)).union(
                        lit_set(m@).remove(#[trigger] m@[i2] as int),
                    ),
                ) by {
                    assert(satisfiable(
                        self.cnfv(),
                        lit_set(known2@).union(lit_set(m@).remove(m@[i2] as int)),
                    ));
                }
            }
        }
        r
    }

    /// "Cake-cutting": partition the constraints into `max_size + 1`
    /// classes, leave out one class at a time, and shrink the remainder.  If
    /// a MUS of the target size exists, some class misses it entirely.
    pub fn get_var_mus_cake(&mut self, lit: i32, max_size: i64) -> (r: SearchResult<
        Option<Vec<i32>>,
    >)
        requires
            old(self).wf(),
            valid_lit(lit as int),
            0 <= max_size < 0x7fff_ffff_ffff_ffff,
        ensures
            final(self).wf(),
            final(self).same_deduction_state(old(self)),
            r matches Ok(Some(m)) ==> old(self).mus_found_good(lit, m@),
    {
        let mut conset = crate::musdict::copy_lits(&self.puzzleparse.conset_lits);
        proof {
            assert(valid_lits(lit_seq(conset@)));
        }
        crate::rng::shuffle_lits_thread(&mut conset);
        let classes: u64 = (max_size as u64) + 1;
        let mut omit: u64 = 0;
        while omit < classes
            invariant
                0 <= omit <= classes,
                classes >= 1,
                self.wf(),
                self.same_deduction_state(old(self)),
                lit_set(conset@).subset_of(old(self).consetv()),
                valid_lits(lit_seq(conset@)),
                valid_lit(lit as int),
            decreases classes - omit,
        {
            let mut candidates: Vec<i32> = Vec::new();
            let mut j: usize = 0;
            proof {
                crate::cnf::lemma_lit_set_empty();
            }
            while j < conset.len()
                invariant
                    0 <= j <= conset@.len(),
                    classes >= 1,
                    lit_set(candidates@).subset_of(lit_set(conset@)),
                decreases conset@.len() - j,
            {
                if (j as u64) % classes != omit {
                    let ghost cpre = candidates@;
                    candidates.push(conset[j]);
                    proof {
                        lemma_lit_set_push(cpre, conset@[j as int]);
                        lemma_lit_set_contains(conset@, j as int);
                    }
                }
                j += 1;
            }
            proof {
                assert forall|k: int| 0 <= k < lit_seq(candidates@).len() implies valid_lit(
                    #[trigger] lit_seq(candidates@)[k],
                ) by {
                    assert(lit_seq(candidates@)[k] == candidates@[k] as int);
                    lemma_lit_set_contains(candidates@, k);
                    lemma_lit_set_equiv(conset@, candidates@[k] as int);
                    let q = choose|q: int|
                        0 <= q < conset@.len() && conset@[q] as int == candidates@[k] as int;
                    assert(lit_seq(conset@)[q] == conset@[q] as int);
                }
            }
            let known2 = self.known_plus_neg(lit);
            let cap = if max_size < 0x7fff_ffff_ffff_fffe {
                max_size + 1
            } else {
                max_size
            };
            match self.satcore.quick_mus(&known2, &candidates, Some(cap)) {
                Err(e) => {
                    return Err(e);
                },
                Ok(Some(m)) => {
                    proof {
                        assert(lit_set(known2@) == self.known_set().insert(-(lit as int)));
                        assert forall|i2: int| 0 <= i2 < m@.len() implies satisfiable(
                            self.cnfv(),
                            self.known_set().insert(-(lit as int)).union(
                                lit_set(m@).remove(#[trigger] m@[i2] as int),
                            ),
                        ) by {
                            assert(satisfiable(
                                self.cnfv(),
                                lit_set(known2@).union(lit_set(m@).remove(m@[i2] as int)),
                            ));
                        }
                    }
                    return Ok(Some(m));
                },
                Ok(None) => {
                },
            }
            omit += 1;
        }
        Ok(None)
    }

    /// Every minimal unsatisfiable subset a list of them holds is small and
    /// justified: it proves `lit` from the constraints.
    pub open spec fn muses_good(&self, lit: i32, ms: Seq<Vec<i32>>) -> bool {
        forall|k: int|
            0 <= k < ms.len() ==> {
                &&& lit_set((#[trigger] ms[k])@).subset_of(self.consetv())
                &&& valid_lits(lit_seq(ms[k]@))
                &&& !satisfiable(
                    self.cnfv(),
                    self.known_set().insert(-(lit as int)).union(lit_set(ms[k]@)),
                )
            }
    }

    /// The MUS list holds the singleton of `c`.
    pub open spec fn mus_listed(ms: Seq<Vec<i32>>, c: i32) -> bool {
        exists|k: int| 0 <= k < ms.len() && (#[trigger] ms[k])@ =~= seq![c]
    }

    /// The recursive half-splitting search for MUSes of size one.
    fn mus_size_1_split(
        &mut self,
        lit: i32,
        count: Option<usize>,
        lits: &Vec<i32>,
        muses: &mut Vec<Vec<i32>>,
    ) -> (r: SearchResult<()>)
        requires
            old(self).wf(),
            valid_lit(lit as int),
            valid_lits(lit_seq(lits@)),
            lit_set(lits@).subset_of(old(self).consetv()),
            old(self).muses_good(lit, old(muses)@),
        ensures
            final(self).wf(),
            final(self).same_deduction_state(old(self)),
            final(self).muses_good(lit, final(muses)@),
            (forall|k: int| 0 <= k < old(muses)@.len() ==> (#[trigger] old(muses)@[k])@.len() <= 1)
                ==> (forall|k: int|
                0 <= k < final(muses)@.len() ==> (#[trigger] final(muses)@[k])@.len() <= 1),
            old(muses)@.is_prefix_of(final(muses)@),
            (r is Ok && count is None) ==> forall|q: int|
                0 <= q < lits@.len() && !satisfiable(
                    old(self).cnfv(),
                    old(self).known_set().insert(-(lit as int)).insert(
                        #[trigger] lits@[q] as int,
                    ),
                ) ==> Self::mus_listed(final(muses)@, lits@[q]),
        decreases lits@.len(),
    {
        proof {
            assert(old(muses)@.is_prefix_of(old(muses)@)) by {
                assert(old(muses)@ =~= old(muses)@.subrange(0, old(muses)@.len() as int));
            }
        }
        if lits.len() == 0 {
            return Ok(());
        }
        if let Some(c) = count {
            if muses.len() >= c {
                return Ok(());
            }
        }
        let known2 = self.known_plus_neg(lit);
        match self.satcore.assumption_solve_with_core(&known2, lits) {
            Err(e) => {
                return Err(e);
            },
            Ok(None) => {
                // Satisfiable: no MUS hides in this half, and none is owed.
                proof {
                    assert forall|q: int| 0 <= q < lits@.len() implies satisfiable(
                        old(self).cnfv(),
                        old(self).known_set().insert(-(lit as int)).insert(
                            #[trigger] lits@[q] as int,
                        ),
                    ) by {
                        lemma_lit_set_contains(lits@, q);
                        assert(old(self).known_set().insert(-(lit as int)).insert(
                            lits@[q] as int,
                        ).subset_of(lit_set(known2@).union(lit_set(lits@))));
                        lemma_satisfiable_subset(
                            old(self).cnfv(),
                            lit_set(known2@).union(lit_set(lits@)),
                            old(self).known_set().insert(-(lit as int)).insert(lits@[q] as int),
                        );
                    }
                }
                return Ok(());
            },
            Ok(Some(core)) => {
                proof {
                    assert(lit_set(known2@) == self.known_set().insert(-(lit as int)));
                }
                if lits.len() == 1 {
                    let m = crate::musdict::copy_lits(lits);
                    let ghost mpre = muses@;
                    muses.push(m);
                    proof {
                        lemma_unsat_superset(
                            self.cnfv(),
                            lit_set(known2@).union(lit_set(core@)),
                            self.known_set().insert(-(lit as int)).union(lit_set(lits@)),
                        );
                        assert forall|k: int| 0 <= k < muses@.len() implies {
                            &&& lit_set((#[trigger] muses@[k])@).subset_of(self.consetv())
                            &&& valid_lits(lit_seq(muses@[k]@))
                            &&& !satisfiable(
                                self.cnfv(),
                                self.known_set().insert(-(lit as int)).union(lit_set(muses@[k]@)),
                            )
                        } by {
                            if k < mpre.len() {
                                assert(muses@[k] == mpre[k]);
                            }
                        }
                        if forall|k: int|
                            0 <= k < mpre.len() ==> (#[trigger] mpre[k])@.len() <= 1 {
                            assert forall|k: int|
                                0 <= k < muses@.len() implies (#[trigger] muses@[k])@.len()
                                <= 1 by {
                                if k < mpre.len() {
                                    assert(muses@[k] == mpre[k]);
                                }
                            }
                        }
                        assert(mpre.is_prefix_of(muses@)) by {
                            assert(mpre =~= muses@.subrange(0, mpre.len() as int));
                        }
                        assert(muses@[mpre.len() as int]@ =~= seq![lits@[0]]);
                        assert(Self::mus_listed(muses@, lits@[0]));
                    }
                    return Ok(());
                }
                // A singleton core is already a size-one MUS.
                if core.len() == 1 {
                    let m = crate::musdict::copy_lits(&core);
                    let ghost mpre = muses@;
                    let mut dup = false;
                    let mut q: usize = 0;
                    while q < muses.len()
                        invariant
                            0 <= q <= muses@.len(),
                        decreases muses@.len() - q,
                    {
                        if crate::musdict::eq_lits(&muses[q], &m) {
                            dup = true;
                        }
                        q += 1;
                    }
                    if !dup {
                        muses.push(m);
                        proof {
                            assert forall|k: int| 0 <= k < muses@.len() implies {
                                &&& lit_set((#[trigger] muses@[k])@).subset_of(self.consetv())
                                &&& valid_lits(lit_seq(muses@[k]@))
                                &&& !satisfiable(
                                    self.cnfv(),
                                    self.known_set().insert(-(lit as int)).union(
                                        lit_set(muses@[k]@),
                                    ),
                                )
                            } by {
                                if k < mpre.len() {
                                    assert(muses@[k] == mpre[k]);
                                }
                            }
                            if forall|k: int|
                                0 <= k < mpre.len() ==> (#[trigger] mpre[k])@.len() <= 1 {
                                assert forall|k: int|
                                    0 <= k < muses@.len() implies (#[trigger] muses@[k])@.len()
                                    <= 1 by {
                                    if k < mpre.len() {
                                        assert(muses@[k] == mpre[k]);
                                    }
                                }
                            }
                        }
                    }
                }
                let ghost mpush = muses@;
                proof {
                    assert(old(muses)@.is_prefix_of(mpush)) by {
                        assert(old(muses)@ =~= mpush.subrange(0, old(muses)@.len() as int));
                    }
                }
                let mid = lits.len() / 2;
                let mut left: Vec<i32> = Vec::new();
                let mut right: Vec<i32> = Vec::new();
                let mut q: usize = 0;
                proof {
                    crate::cnf::lemma_lit_set_empty();
                }
                while q < lits.len()
                    invariant
                        0 <= q <= lits@.len(),
                        mid == lits@.len() / 2,
                        lits@.len() >= 2,
                        left@.len() <= q as int,
                        left@.len() <= mid as int,
                        right@.len() <= (if q <= mid { 0int } else { q - mid }),
                        lit_set(left@).subset_of(lit_set(lits@)),
                        lit_set(right@).subset_of(lit_set(lits@)),
                        q <= mid ==> left@ =~= lits@.subrange(0, q as int),
                        q > mid ==> left@ =~= lits@.subrange(0, mid as int),
                        q <= mid ==> right@.len() == 0,
                        q > mid ==> right@ =~= lits@.subrange(mid as int, q as int),
                    decreases lits@.len() - q,
                {
                    if q < mid {
                        let ghost lpre = left@;
                        left.push(lits[q]);
                        proof {
                            lemma_lit_set_push(lpre, lits@[q as int]);
                            lemma_lit_set_contains(lits@, q as int);
                            assert(lits@.subrange(0, q + 1) =~= lits@.subrange(0, q as int).push(
                                lits@[q as int],
                            ));
                        }
                    } else {
                        let ghost rpre = right@;
                        right.push(lits[q]);
                        proof {
                            lemma_lit_set_push(rpre, lits@[q as int]);
                            lemma_lit_set_contains(lits@, q as int);
                            assert(lits@.subrange(mid as int, q + 1) =~= lits@.subrange(
                                mid as int,
                                q as int,
                            ).push(lits@[q as int]));
                        }
                    }
                    q += 1;
                }
                proof {
                    assert(left@ =~= lits@.subrange(0, mid as int));
                    assert(right@ =~= lits@.subrange(mid as int, lits@.len() as int));
                }
                proof {
                    assert(left@.len() < lits@.len());
                    assert(right@.len() < lits@.len());
                    assert forall|k: int| 0 <= k < lit_seq(left@).len() implies valid_lit(
                        #[trigger] lit_seq(left@)[k],
                    ) by {
                        assert(lit_seq(left@)[k] == left@[k] as int);
                        lemma_lit_set_contains(left@, k);
                        lemma_lit_set_equiv(lits@, left@[k] as int);
                        let j = choose|j: int|
                            0 <= j < lits@.len() && lits@[j] as int == left@[k] as int;
                        assert(lit_seq(lits@)[j] == lits@[j] as int);
                    }
                    assert forall|k: int| 0 <= k < lit_seq(right@).len() implies valid_lit(
                        #[trigger] lit_seq(right@)[k],
                    ) by {
                        assert(lit_seq(right@)[k] == right@[k] as int);
                        lemma_lit_set_contains(right@, k);
                        lemma_lit_set_equiv(lits@, right@[k] as int);
                        let j = choose|j: int|
                            0 <= j < lits@.len() && lits@[j] as int == right@[k] as int;
                        assert(lit_seq(lits@)[j] == lits@[j] as int);
                    }
                }
                match self.mus_size_1_split(lit, count, &left, muses) {
                    Err(e) => {
                        proof {
                            lemma_mus_prefix_trans(old(muses)@, mpush, muses@);
                        }
                        return Err(e);
                    },
                    Ok(()) => {},
                }
                let ghost m1 = muses@;
                match self.mus_size_1_split(lit, count, &right, muses) {
                    Err(e) => {
                        proof {
                            lemma_mus_prefix_trans(old(muses)@, mpush, m1);
                            lemma_mus_prefix_trans(old(muses)@, m1, muses@);
                        }
                        return Err(e);
                    },
                    Ok(()) => {},
                }
                proof {
                    lemma_mus_prefix_trans(old(muses)@, mpush, m1);
                    lemma_mus_prefix_trans(old(muses)@, m1, muses@);
                    if count is None {
                        assert forall|q: int|
                            0 <= q < lits@.len() && !satisfiable(
                                old(self).cnfv(),
                                old(self).known_set().insert(-(lit as int)).insert(
                                    #[trigger] lits@[q] as int,
                                ),
                            ) implies Self::mus_listed(muses@, lits@[q]) by {
                            if q < mid {
                                assert(left@[q] == lits@[q]);
                                assert(Self::mus_listed(m1, left@[q]));
                                lemma_mus_listed_prefix(m1, muses@, lits@[q]);
                            } else {
                                assert(right@[q - mid] == lits@[q]);
                                assert(Self::mus_listed(muses@, right@[q - mid]));
                            }
                        }
                    }
                }
                Ok(())
            },
        }
    }

    /// All minimal unsatisfiable subsets of size zero or one for `lit`, up
    /// to `count` of them.
    ///
    /// A literal already entailed by the known facts alone gets exactly the
    /// empty MUS, and gets it exactly when it is so entailed.
    pub fn get_var_mus_size_1(&mut self, lit: i32, count: Option<usize>) -> (r: SearchResult<
        Vec<Vec<i32>>,
    >)
        requires
            old(self).wf(),
            valid_lit(lit as int),
        ensures
            final(self).wf(),
            final(self).same_deduction_state(old(self)),
            r matches Ok(ms) ==> {
                &&& old(self).muses_good(lit, ms@)
                &&& (forall|k: int| 0 <= k < ms@.len() ==> (#[trigger] ms@[k])@.len() <= 1)
                &&& (!satisfiable(
                    old(self).cnfv(),
                    old(self).known_set().insert(-(lit as int)),
                ) ==> ms@.len() == 1 && ms@[0]@.len() == 0)
                &&& ((exists|k: int| 0 <= k < ms@.len() && (#[trigger] ms@[k])@.len() == 0)
                    ==> !satisfiable(
                    old(self).cnfv(),
                    old(self).known_set().insert(-(lit as int)),
                ))
            },
            r matches Ok(ms) ==> ((count is None && satisfiable(
                old(self).cnfv(),
                old(self).known_set().insert(-(lit as int)),
            )) ==> forall|c: i32|
                #[trigger] old(self).consetv().contains(c as int) && !satisfiable(
                    old(self).cnfv(),
                    old(self).known_set().insert(-(lit as int)).insert(c as int),
                ) ==> Self::mus_listed(ms@, c)),
    {
        let neg = -lit;
        let mut just_lit: Vec<i32> = Vec::new();
        just_lit.push(neg);
        proof {
            crate::cnf::lemma_lit_set_empty();
            lemma_lit_set_push(Seq::<i32>::empty(), neg);
        }
        match self.satcore.assumption_solve(&self.knownlits, &just_lit) {
            Err(e) => {
                return Err(e);
            },
            Ok(false) => {
                let mut ms: Vec<Vec<i32>> = Vec::new();
                ms.push(Vec::new());
                proof {
                    assert(self.known_set().union(lit_set(just_lit@)) =~= self.known_set().insert(
                        -(lit as int),
                    ));
                    assert(lit_set(ms@[0]@) =~= Set::<int>::empty()) by {
                        crate::cnf::lemma_lit_set_empty();
                    }
                    assert(self.known_set().insert(-(lit as int)).union(lit_set(ms@[0]@))
                        =~= self.known_set().insert(-(lit as int)));
                }
                return Ok(ms);
            },
            Ok(true) => {
                proof {
                    assert(self.known_set().union(lit_set(just_lit@)) =~= self.known_set().insert(
                        -(lit as int),
                    ));
                }
            },
        }
        // Satisfiable without constraints, so search for size-one MUSes over
        // a shuffled constraint set, split in halves.
        let mut conset = crate::musdict::copy_lits(&self.puzzleparse.conset_lits);
        proof {
            assert(valid_lits(lit_seq(conset@)));
        }
        let mut rng = crate::rng::rng_from_seed(2);
        crate::rng::shuffle_lits(&mut conset, &mut rng);
        let ghost satno = satisfiable(
            self.cnfv(),
            self.known_set().insert(-(lit as int)),
        );
        let mid = conset.len() / 2;
        let mut left: Vec<i32> = Vec::new();
        let mut right: Vec<i32> = Vec::new();
        let mut q: usize = 0;
        proof {
            crate::cnf::lemma_lit_set_empty();
        }
        while q < conset.len()
            invariant
                0 <= q <= conset@.len(),
                mid == conset@.len() / 2,
                lit_set(left@).subset_of(lit_set(conset@)),
                lit_set(right@).subset_of(lit_set(conset@)),
                q <= mid ==> left@ =~= conset@.subrange(0, q as int),
                q > mid ==> left@ =~= conset@.subrange(0, mid as int),
                q <= mid ==> right@.len() == 0,
                q > mid ==> right@ =~= conset@.subrange(mid as int, q as int),
            decreases conset@.len() - q,
        {
            if q < mid {
                let ghost lpre = left@;
                left.push(conset[q]);
                proof {
                    lemma_lit_set_push(lpre, conset@[q as int]);
                    lemma_lit_set_contains(conset@, q as int);
                    assert(conset@.subrange(0, q + 1) =~= conset@.subrange(0, q as int).push(
                        conset@[q as int],
                    ));
                }
            } else {
                let ghost rpre = right@;
                right.push(conset[q]);
                proof {
                    lemma_lit_set_push(rpre, conset@[q as int]);
                    lemma_lit_set_contains(conset@, q as int);
                    assert(conset@.subrange(mid as int, q + 1) =~= conset@.subrange(
                        mid as int,
                        q as int,
                    ).push(conset@[q as int]));
                }
            }
            q += 1;
        }
        proof {
            if conset@.len() > 0 {
                assert(right@ =~= conset@.subrange(mid as int, conset@.len() as int));
            }
        }
        proof {
            assert forall|k: int| 0 <= k < lit_seq(left@).len() implies valid_lit(
                #[trigger] lit_seq(left@)[k],
            ) by {
                assert(lit_seq(left@)[k] == left@[k] as int);
                lemma_lit_set_contains(left@, k);
                lemma_lit_set_equiv(conset@, left@[k] as int);
                let j = choose|j: int|
                    0 <= j < conset@.len() && conset@[j] as int == left@[k] as int;
                assert(lit_seq(conset@)[j] == conset@[j] as int);
            }
            assert forall|k: int| 0 <= k < lit_seq(right@).len() implies valid_lit(
                #[trigger] lit_seq(right@)[k],
            ) by {
                assert(lit_seq(right@)[k] == right@[k] as int);
                lemma_lit_set_contains(right@, k);
                lemma_lit_set_equiv(conset@, right@[k] as int);
                let j = choose|j: int|
                    0 <= j < conset@.len() && conset@[j] as int == right@[k] as int;
                assert(lit_seq(conset@)[j] == conset@[j] as int);
            }
        }
        let mut muses: Vec<Vec<i32>> = Vec::new();
        match self.mus_size_1_split(lit, count, &left, &mut muses) {
            Err(e) => {
                return Err(e);
            },
            Ok(()) => {},
        }
        let ghost m1 = muses@;
        match self.mus_size_1_split(lit, count, &right, &mut muses) {
            Err(e) => {
                return Err(e);
            },
            Ok(()) => {},
        }
        proof {
            if count is None {
                assert forall|c: i32|
                    #[trigger] old(self).consetv().contains(c as int) && !satisfiable(
                        old(self).cnfv(),
                        old(self).known_set().insert(-(lit as int)).insert(c as int),
                    ) implies Self::mus_listed(muses@, c) by {
                    assert(lit_set(conset@).contains(c as int));
                    lemma_lit_set_equiv(conset@, c as int);
                    let qd = choose|qd: int|
                        0 <= qd < conset@.len() && conset@[qd] as int == c as int;
                    assert(conset@[qd] == c);
                    if qd < mid {
                        assert(left@[qd] == c);
                        assert(Self::mus_listed(m1, left@[qd]));
                        lemma_mus_listed_prefix(m1, muses@, c);
                    } else {
                        assert(right@[qd - mid] == c);
                        assert(Self::mus_listed(muses@, right@[qd - mid]));
                    }
                }
            }
        }
        proof {
            assert forall|k: int| 0 <= k < muses@.len() implies (#[trigger] muses@[k])@.len()
                != 0 by {
                if muses@[k]@.len() == 0 {
                    assert(lit_set(muses@[k]@) =~= Set::<int>::empty()) by {
                        crate::cnf::lemma_lit_set_empty();
                    }
                    assert(self.known_set().insert(-(lit as int)).union(lit_set(muses@[k]@))
                        =~= self.known_set().insert(-(lit as int)));
                }
            }
        }
        Ok(muses)
    }

    /// The literals among the given ones entailed by the known facts alone,
    /// exactly: unlike the lenient filter below, a backend give-up aborts
    /// the whole filtering instead of silently dropping a literal, so on
    /// `Ok` the result is complete.
    pub fn trivial_lits(&mut self, lits: &Vec<i32>) -> (r: SearchResult<Vec<i32>>)
        requires
            old(self).wf(),
            valid_lits(lit_seq(lits@)),
        ensures
            final(self).wf(),
            final(self).same_deduction_state(old(self)),
            final(self).cachev() == old(self).cachev(),
            r matches Ok(v) ==> {
                &&& valid_lits(lit_seq(v@))
                &&& lit_set(v@).subset_of(lit_set(lits@))
                &&& (forall|k: int|
                    0 <= k < v@.len() ==> !satisfiable(
                        old(self).cnfv(),
                        old(self).known_set().insert(-(#[trigger] v@[k] as int)),
                    ))
                &&& (forall|k: int|
                    0 <= k < lits@.len() && !satisfiable(
                        old(self).cnfv(),
                        old(self).known_set().insert(-(#[trigger] lits@[k] as int)),
                    ) ==> lit_set(v@).contains(lits@[k] as int))
            },
    {
        let mut out: Vec<i32> = Vec::new();
        proof {
            crate::cnf::lemma_lit_set_empty();
        }
        let mut i: usize = 0;
        while i < lits.len()
            invariant
                0 <= i <= lits@.len(),
                self.wf(),
                self.same_deduction_state(old(self)),
                self.cachev() == old(self).cachev(),
                valid_lits(lit_seq(lits@)),
                valid_lits(lit_seq(out@)),
                lit_set(out@).subset_of(lit_set(lits@)),
                forall|k: int|
                    0 <= k < out@.len() ==> !satisfiable(
                        old(self).cnfv(),
                        old(self).known_set().insert(-(#[trigger] out@[k] as int)),
                    ),
                forall|k: int|
                    0 <= k < i && !satisfiable(
                        old(self).cnfv(),
                        old(self).known_set().insert(-(#[trigger] lits@[k] as int)),
                    ) ==> lit_set(out@).contains(lits@[k] as int),
            decreases lits@.len() - i,
        {
            let l = lits[i];
            proof {
                assert(lit_seq(lits@)[i as int] == lits@[i as int] as int);
            }
            let neg = -l;
            let mut just_lit: Vec<i32> = Vec::new();
            just_lit.push(neg);
            proof {
                crate::cnf::lemma_lit_set_empty();
                lemma_lit_set_push(Seq::<i32>::empty(), neg);
            }
            match self.satcore.assumption_solve(&self.knownlits, &just_lit) {
                Ok(solvable) => {
                    proof {
                        assert(self.known_set().union(lit_set(just_lit@))
                            =~= self.known_set().insert(-(l as int)));
                    }
                    if !solvable {
                        let ghost pre = out@;
                        out.push(l);
                        proof {
                            lemma_lit_set_push(pre, l);
                            lemma_valid_push_seq(pre, pre, out@, l);
                            lemma_lit_set_contains(lits@, i as int);
                        }
                    }
                },
                Err(e) => {
                    return Err(e);
                },
            }
            i += 1;
        }
        Ok(out)
    }

    /// The literals among the given ones that are entailed by the known
    /// facts alone (a MUS of size zero).
    pub fn get_many_vars_mus_size_0(&mut self, lits: &Vec<i32>) -> (r: Vec<i32>)
        requires
            old(self).wf(),
            valid_lits(lit_seq(lits@)),
        ensures
            final(self).wf(),
            final(self).same_deduction_state(old(self)),
            valid_lits(lit_seq(r@)),
            lit_set(r@).subset_of(lit_set(lits@)),
            forall|k: int|
                0 <= k < r@.len() ==> !satisfiable(
                    old(self).cnfv(),
                    old(self).known_set().insert(-(#[trigger] r@[k] as int)),
                ),
    {
        let mut out: Vec<i32> = Vec::new();
        let mut i: usize = 0;
        proof {
            crate::cnf::lemma_lit_set_empty();
        }
        while i < lits.len()
            invariant
                0 <= i <= lits@.len(),
                self.wf(),
                self.same_deduction_state(old(self)),
                valid_lits(lit_seq(lits@)),
                valid_lits(lit_seq(out@)),
                lit_set(out@).subset_of(lit_set(lits@)),
                forall|k: int|
                    0 <= k < out@.len() ==> !satisfiable(
                        old(self).cnfv(),
                        old(self).known_set().insert(-(#[trigger] out@[k] as int)),
                    ),
            decreases lits@.len() - i,
        {
            let l = lits[i];
            proof {
                assert(lit_seq(lits@)[i as int] == lits@[i as int] as int);
            }
            if self.check_var_mus_size_0(l) {
                let ghost pre = out@;
                out.push(l);
                proof {
                    lemma_lit_set_push(pre, l);
                    lemma_lit_set_contains(lits@, i as int);
                    assert forall|k: int| 0 <= k < lit_seq(out@).len() implies valid_lit(
                        #[trigger] lit_seq(out@)[k],
                    ) by {
                        assert(lit_seq(out@)[k] == out@[k] as int);
                        if k < pre.len() {
                            assert(lit_seq(pre)[k] == pre[k] as int);
                        }
                    }
                    assert forall|k: int| 0 <= k < out@.len() implies !satisfiable(
                        old(self).cnfv(),
                        old(self).known_set().insert(-(#[trigger] out@[k] as int)),
                    ) by {
                        if k < pre.len() {
                            assert(out@[k] == pre[k]);
                        }
                    }
                }
            }
            i += 1;
        }
        out
    }

    /// Every MUS the dictionary stores for a literal really proves it: with
    /// the known literals and the literal's denial it cannot be satisfied.
    /// Keys are valid, unknown literals, and each stored context speaks
    /// about exactly its key.
    pub open spec fn dict_justified(&self, d: Map<int, Seq<(Seq<i32>, Seq<i32>)>>) -> bool {
        forall|l: int|
            #[trigger] d.dom().contains(l) ==> valid_lit(l) && !self.known_set().contains(l) && (
            forall|j: int|
                0 <= j < d[l].len() ==> {
                    &&& lit_set((#[trigger] d[l][j]).0) =~= Set::<int>::empty().insert(l)
                    &&& lit_set(d[l][j].1).subset_of(self.consetv())
                    &&& valid_lits(lit_seq(d[l][j].1))
                    &&& !satisfiable(
                        self.cnfv(),
                        self.known_set().insert(-l).union(lit_set(d[l][j].1)),
                    )
                })
    }

    /// Stores a justified MUS in the dictionary, keeping every stored MUS
    /// justified.
    fn record_justified_mus(&self, md: &mut MusDict, lit: i32, mus: &Vec<i32>)
        requires
            self.wf(),
            old(md).wf(),
            valid_lit(lit as int),
            !self.known_set().contains(lit as int),
            self.dict_justified(old(md).dictv()),
            lit_set(mus@).subset_of(self.consetv()),
            valid_lits(lit_seq(mus@)),
            !satisfiable(
                self.cnfv(),
                self.known_set().insert(-(lit as int)).union(lit_set(mus@)),
            ),
        ensures
            final(md).wf(),
            self.dict_justified(final(md).dictv()),
            final(md).dictv().dom() =~= old(md).dictv().dom().insert(lit as int),
    {
        md.add_mus(lit, mus);
        proof {
            let oldd = old(md).dictv();
            let newd = md.dictv();
            assert forall|l: int| #[trigger] newd.dom().contains(l) implies valid_lit(l)
                && !self.known_set().contains(l) && (
            forall|j: int|
                0 <= j < newd[l].len() ==> {
                    &&& lit_set((#[trigger] newd[l][j]).0) =~= Set::<int>::empty().insert(l)
                    &&& lit_set(newd[l][j].1).subset_of(self.consetv())
                    &&& valid_lits(lit_seq(newd[l][j].1))
                    &&& !satisfiable(
                        self.cnfv(),
                        self.known_set().insert(-l).union(lit_set(newd[l][j].1)),
                    )
                }) by {
                if l != lit as int {
                    assert(oldd.dom().contains(l));
                    assert(newd[l] == oldd[l]);
                } else {
                    assert forall|j: int| 0 <= j < newd[l].len() implies {
                        &&& lit_set((#[trigger] newd[l][j]).0) =~= Set::<int>::empty().insert(l)
                        &&& lit_set(newd[l][j].1).subset_of(self.consetv())
                        &&& valid_lits(lit_seq(newd[l][j].1))
                        &&& !satisfiable(
                            self.cnfv(),
                            self.known_set().insert(-l).union(lit_set(newd[l][j].1)),
                        )
                    } by {
                        if !oldd.dom().contains(l) || lit_set(mus@).len() < oldd[l][0].1.len() {
                            // Only the fresh context is stored.
                            assert(lit_set(newd[l][j].1) =~= lit_set(mus@));
                            lemma_valid_from_set(newd[l][j].1, mus@);
                        } else if lit_set(mus@).len() == oldd[l][0].1.len() {
                            if exists|i: int|
                                #![auto]
                                0 <= i < oldd[l].len() && oldd[l][i] == newd[l][j] {
                                let i = choose|i: int|
                                    #![auto]
                                    0 <= i < oldd[l].len() && oldd[l][i] == newd[l][j];
                            } else {
                                assert(lit_set(newd[l][j].0) =~= Set::<int>::empty().insert(l));
                                assert(lit_set(newd[l][j].1) =~= lit_set(mus@));
                                lemma_valid_from_set(newd[l][j].1, mus@);
                            }
                        } else {
                            assert(newd == oldd);
                        }
                    }
                }
            }
        }
    }

    /// Finds, for each literal, a first (not necessarily small) MUS with the
    /// quick shrink, and records it.
    pub fn get_many_vars_mus_first(&mut self, lits: &Vec<i32>, musdict: Option<MusDict>) -> (r:
        MusDict)
        requires
            old(self).wf(),
            valid_lits(lit_seq(lits@)),
            forall|k: int|
                0 <= k < lits@.len() ==> !old(self).known_set().contains(#[trigger] lits@[k] as int),
            musdict matches Some(d) ==> d.wf() && old(self).dict_justified(d.dictv()),
        ensures
            final(self).wf(),
            final(self).same_deduction_state(old(self)),
            r.wf(),
            final(self).dict_justified(r.dictv()),
            r.dictv().dom().subset_of(lit_set(lits@).union(input_dom(musdict))),
    {
        let ghost dom0 = input_dom(musdict);
        let mut md = match musdict {
            Some(d) => d,
            None => MusDict::new(),
        };
        let mut i: usize = 0;
        while i < lits.len()
            invariant
                0 <= i <= lits@.len(),
                self.wf(),
                self.same_deduction_state(old(self)),
                valid_lits(lit_seq(lits@)),
                forall|k: int|
                    0 <= k < lits@.len() ==> !old(self).known_set().contains(
                        #[trigger] lits@[k] as int,
                    ),
                md.wf(),
                self.dict_justified(md.dictv()),
                dom0 == input_dom(musdict),
                md.dictv().dom().subset_of(lit_set(lits@).union(dom0)),
            decreases lits@.len() - i,
        {
            let l = lits[i];
            proof {
                assert(lit_seq(lits@)[i as int] == lits@[i as int] as int);
                lemma_lit_set_contains(lits@, i as int);
            }
            match self.get_var_mus_quick(l, None) {
                Ok(Some(m)) => {
                    self.record_justified_mus(&mut md, l, &m);
                },
                _ => {
                    // A satisfiable or timed-out probe records nothing.
                },
            }
            i += 1;
        }
        md
    }

    /// Searches for small MUSes for every literal, growing the target size
    /// until the dictionary's smallest entry meets it.
    ///
    /// Every MUS stored is justified; which literals get entries depends on
    /// the heuristics and on solver limits.
    pub fn get_many_vars_small_mus_quick(
        &mut self,
        lits: &Vec<i32>,
        config: &MusConfig,
        musdict: Option<MusDict>,
    ) -> (r: MusDict)
        requires
            old(self).wf(),
            valid_lits(lit_seq(lits@)),
            forall|k: int|
                0 <= k < lits@.len() ==> !old(self).known_set().contains(#[trigger] lits@[k] as int),
            0 <= config.base_size_mus <= 0x7fff_ffff,
            1 <= config.mus_add_step <= 0xffff,
            1 <= config.mus_mult_step <= 0xffff,
            0 <= config.repeats <= 0xffff,
            musdict matches Some(d) ==> d.wf() && old(self).dict_justified(d.dictv()),
        ensures
            final(self).wf(),
            final(self).same_deduction_state(old(self)),
            r.wf(),
            final(self).dict_justified(r.dictv()),
            r.dictv().dom().subset_of(lit_set(lits@).union(input_dom(musdict))),
    {
        let ghost dom0 = input_dom(musdict);
        let mut md = match musdict {
            Some(d) => d,
            None => MusDict::new(),
        };
        // First, scan for MUSes of size zero or one: they beat anything.
        let mut tiny_found = false;
        let mut i: usize = 0;
        while i < lits.len()
            invariant
                0 <= i <= lits@.len(),
                self.wf(),
                self.same_deduction_state(old(self)),
                valid_lits(lit_seq(lits@)),
                forall|k: int|
                    0 <= k < lits@.len() ==> !old(self).known_set().contains(
                        #[trigger] lits@[k] as int,
                    ),
                md.wf(),
                self.dict_justified(md.dictv()),
                dom0 == input_dom(musdict),
                md.dictv().dom().subset_of(lit_set(lits@).union(dom0)),
            decreases lits@.len() - i,
        {
            let l = lits[i];
            proof {
                assert(lit_seq(lits@)[i as int] == lits@[i as int] as int);
                lemma_lit_set_contains(lits@, i as int);
            }
            match self.get_var_mus_size_1(l, Some(1)) {
                Ok(ms) => {
                    if ms.len() > 0 {
                        tiny_found = true;
                        self.record_justified_mus(&mut md, l, &ms[0]);
                    }
                },
                Err(_) => {},
            }
            i += 1;
        }
        if tiny_found && !config.find_bigger {
            return md;
        }
        let mut mus_size: i64 = config.base_size_mus;
        let mut best_mus_size: i64 = config.base_size_mus;
        loop
            invariant
                self.wf(),
                self.same_deduction_state(old(self)),
                valid_lits(lit_seq(lits@)),
                forall|k: int|
                    0 <= k < lits@.len() ==> !old(self).known_set().contains(
                        #[trigger] lits@[k] as int,
                    ),
                md.wf(),
                self.dict_justified(md.dictv()),
                dom0 == input_dom(musdict),
                md.dictv().dom().subset_of(lit_set(lits@).union(dom0)),
                0 <= mus_size <= 0x1_0000_0000_0000i64,
                0 <= best_mus_size,
                1 <= config.mus_add_step <= 0xffff,
                1 <= config.mus_mult_step <= 0xffff,
                0 <= config.repeats <= 0xffff,
            decreases 0x1_0000_0000_0000i64 - mus_size,
        {
            best_mus_size = mus_size;
            let mut li: usize = 0;
            while li < lits.len()
                invariant
                    0 <= li <= lits@.len(),
                    self.wf(),
                    self.same_deduction_state(old(self)),
                    valid_lits(lit_seq(lits@)),
                    forall|k: int|
                        0 <= k < lits@.len() ==> !old(self).known_set().contains(
                            #[trigger] lits@[k] as int,
                        ),
                    md.wf(),
                    self.dict_justified(md.dictv()),
                    dom0 == input_dom(musdict),
                    md.dictv().dom().subset_of(lit_set(lits@).union(dom0)),
                    0 <= best_mus_size <= 0x1_0000_0000_0000i64,
                    0 <= mus_size <= 0x1_0000_0000_0000i64,
                    0 <= config.repeats <= 0xffff,
                decreases lits@.len() - li,
            {
                let l = lits[li];
                proof {
                    assert(lit_seq(lits@)[li as int] == lits@[li as int] as int);
                    lemma_lit_set_contains(lits@, li as int);
                }
                let mut rp: i64 = 0;
                while rp < config.repeats
                    invariant
                        0 <= rp,
                        self.wf(),
                        self.same_deduction_state(old(self)),
                        md.wf(),
                        self.dict_justified(md.dictv()),
                        dom0 == input_dom(musdict),
                        md.dictv().dom().subset_of(lit_set(lits@).union(dom0)),
                        valid_lit(l as int),
                        !old(self).known_set().contains(l as int),
                        lit_set(lits@).contains(l as int),
                        0 <= best_mus_size <= 0x1_0000_0000_0000i64,
                        0 <= config.repeats <= 0xffff,
                    decreases config.repeats - rp,
                {
                    let mus_test_size: i64 = if config.find_bigger {
                        best_mus_size + 9
                    } else {
                        best_mus_size
                    };
                    let probe = match config.strategy {
                        Strategy::Slice => self.get_var_mus_slice(l, Some(mus_test_size)),
                        Strategy::Cake => self.get_var_mus_cake(l, mus_test_size),
                        Strategy::Quick => self.get_var_mus_quick(l, Some(mus_test_size)),
                        Strategy::Dynamic => {
                            if mus_test_size < 5 {
                                self.get_var_mus_cake(l, mus_test_size)
                            } else {
                                self.get_var_mus_slice(l, Some(mus_test_size))
                            }
                        },
                    };
                    match probe {
                        Ok(Some(m)) => {
                            if (m.len() as u64) < 0x1_0000_0000_0000u64 && (m.len() as u64 as i64)
                                < best_mus_size {
                                best_mus_size = m.len() as u64 as i64;
                            }
                            self.record_justified_mus(&mut md, l, &m);
                        },
                        _ => {},
                    }
                    rp += 1;
                }
                li += 1;
            }
            match md.min() {
                Some(mus_min) => {
                    let met = if config.find_bigger {
                        (mus_min as u64) < 0x1_0000_0000u64 && (mus_min as u64 as i64) * 3 + 3
                            <= mus_size
                    } else {
                        (mus_min as u64) < 0x1_0000_0000u64 && (mus_min as u64 as i64) <= mus_size
                    };
                    if met {
                        return md;
                    }
                },
                None => {},
            }
            if mus_size > 0x7fff_ffff {
                return md;
            }
            proof {
                assert(mus_size * config.mus_mult_step <= 0x7fff_ffff * 0xffff) by (nonlinear_arith)
                    requires 0 <= mus_size <= 0x7fff_ffff && 1 <= config.mus_mult_step <= 0xffff;
                assert(mus_size * config.mus_mult_step >= 0) by (nonlinear_arith)
                    requires 0 <= mus_size && 1 <= config.mus_mult_step;
            }
            let next = mus_size * config.mus_mult_step + config.mus_add_step;
            if next <= mus_size {
                return md;
            }
            mus_size = if next > 0x1_0000_0000_0000i64 {
                0x1_0000_0000_0000i64
            } else {
                next
            };
        }
    }

    /// The literals among the candidates that this MUS alone (with the known
    /// literals) proves.
    pub fn get_varlits_provable_by_mus(&mut self, candidates: &Vec<i32>, mc: &MusContext) -> (r:
        SearchResult<Vec<i32>>)
        requires
            old(self).wf(),
            valid_lits(lit_seq(candidates@)),
            valid_lits(lit_seq(mc.mus@)),
        ensures
            final(self).wf(),
            final(self).same_deduction_state(old(self)),
            r matches Ok(v) ==> {
                &&& valid_lits(lit_seq(v@))
                &&& lit_set(v@).subset_of(lit_set(candidates@))
                &&& forall|k: int|
                    0 <= k < v@.len() ==> !old(self).known_set().contains(#[trigger] v@[k] as int)
                        && !satisfiable(
                        old(self).cnfv(),
                        old(self).known_set().union(lit_set(mc.mus@)).insert(-(v@[k] as int)),
                    )
            },
            r matches Ok(v) ==> forall|k: int|
                0 <= k < candidates@.len() && !old(self).known_set().contains(
                    #[trigger] candidates@[k] as int,
                ) && !old(self).known_set().contains(-(candidates@[k] as int)) && !satisfiable(
                    old(self).cnfv(),
                    old(self).known_set().union(lit_set(mc.mus@)).insert(
                        -(candidates@[k] as int),
                    ),
                ) ==> lit_set(v@).contains(candidates@[k] as int),
    {
        let mut out: Vec<i32> = Vec::new();
        let mut i: usize = 0;
        proof {
            crate::cnf::lemma_lit_set_empty();
        }
        while i < candidates.len()
            invariant
                0 <= i <= candidates@.len(),
                self.wf(),
                self.same_deduction_state(old(self)),
                valid_lits(lit_seq(candidates@)),
                valid_lits(lit_seq(mc.mus@)),
                valid_lits(lit_seq(out@)),
                lit_set(out@).subset_of(lit_set(candidates@)),
                forall|k: int|
                    0 <= k < out@.len() ==> !old(self).known_set().contains(
                        #[trigger] out@[k] as int,
                    ) && !satisfiable(
                        old(self).cnfv(),
                        old(self).known_set().union(lit_set(mc.mus@)).insert(-(out@[k] as int)),
                    ),
                forall|k: int|
                    0 <= k < i && !old(self).known_set().contains(
                        #[trigger] candidates@[k] as int,
                    ) && !old(self).known_set().contains(-(candidates@[k] as int))
                        && !satisfiable(
                        old(self).cnfv(),
                        old(self).known_set().union(lit_set(mc.mus@)).insert(
                            -(candidates@[k] as int),
                        ),
                    ) ==> lit_set(out@).contains(candidates@[k] as int),
            decreases candidates@.len() - i,
        {
            let l = candidates[i];
            proof {
                assert(lit_seq(candidates@)[i as int] == candidates@[i as int] as int);
            }
            if !contains_lit(&self.knownlits, l) && !contains_lit(&self.knownlits, -l) {
                let mut assumps = crate::musdict::copy_lits(&mc.mus);
                let ghost apre = assumps@;
                let neg = -l;
                assumps.push(neg);
                proof {
                    lemma_lit_set_push(apre, neg);
                    assert forall|k: int| 0 <= k < lit_seq(assumps@).len() implies valid_lit(
                        #[trigger] lit_seq(assumps@)[k],
                    ) by {
                        assert(lit_seq(assumps@)[k] == assumps@[k] as int);
                        if k < apre.len() {
                            assert(lit_seq(mc.mus@)[k] == mc.mus@[k] as int);
                        }
                    }
                }
                match self.satcore.assumption_solve(&self.knownlits, &assumps) {
                    Ok(false) => {
                        let ghost opre = out@;
                        out.push(l);
                        proof {
                            lemma_lit_set_push(opre, l);
                            lemma_lit_set_contains(candidates@, i as int);
                            assert(self.known_set().union(lit_set(assumps@))
                                =~= self.known_set().union(lit_set(mc.mus@)).insert(
                                -(l as int),
                            ));
                            assert forall|k: int|
                                0 <= k < lit_seq(out@).len() implies valid_lit(
                                #[trigger] lit_seq(out@)[k],
                            ) by {
                                assert(lit_seq(out@)[k] == out@[k] as int);
                                if k < opre.len() {
                                    assert(lit_seq(opre)[k] == opre[k] as int);
                                }
                            }
                            assert forall|k: int| 0 <= k < out@.len() implies !old(
                                self,
                            ).known_set().contains(#[trigger] out@[k] as int) && !satisfiable(
                                old(self).cnfv(),
                                old(self).known_set().union(lit_set(mc.mus@)).insert(
                                    -(out@[k] as int),
                                ),
                            ) by {
                                if k < opre.len() {
                                    assert(out@[k] == opre[k]);
                                }
                            }
                        }
                    },
                    Ok(true) => {
                        proof {
                            assert(self.known_set().union(lit_set(assumps@))
                                =~= self.known_set().union(lit_set(mc.mus@)).insert(
                                -(l as int),
                            ));
                        }
                    },
                    Err(e) => {
                        return Err(e);
                    },
                }
            }
            i += 1;
        }
        Ok(out)
    }

    /// All candidate literals in the scope of the MUS's constraints: the
    /// literals its constraints can affect, plus everything it already
    /// proves, intersected with what is currently provable.
    pub fn get_all_lits_in_scope_for_mus(&mut self, mc: &MusContext) -> (r: SearchResult<
        Vec<i32>,
    >)
        requires
            old(self).wf(),
        ensures
            final(self).wf(),
            final(self).same_deduction_state(old(self)),
            r matches Ok(v) ==> valid_lits(lit_seq(v@)),
    {
        // The variables the MUS's constraints can reach.
        let mut vars: Vec<crate::model::PuzVar> = Vec::new();
        let mut i: usize = 0;
        while i < mc.mus.len()
            invariant
                self.wf(),
                self.same_deduction_state(old(self)),
            decreases mc.mus@.len() - i,
        {
            let con = mc.mus[i];
            if let Some(lits) = crate::puzzle::intmap_get(&self.puzzleparse.varlits_in_con, con) {
                let lits = crate::musdict::copy_lits(lits);
                let mut k: usize = 0;
                while k < lits.len()
                    invariant
                        self.wf(),
                        self.same_deduction_state(old(self)),
                    decreases lits@.len() - k,
                {
                    let mut pairs = self.puzzleparse.direct_or_ordered_lit_to_varvalpair(lits[k]);
                    let mut q: usize = 0;
                    while q < pairs.len()
                        invariant
                            self.wf(),
                            self.same_deduction_state(old(self)),
                        decreases pairs@.len() - q,
                    {
                        vars.push(pairs[q].var().duplicate());
                        q += 1;
                    }
                    k += 1;
                }
            }
            i += 1;
        }
        // Provable literals whose variables lie in that scope, plus the
        // literals the MUS already proves.
        let provable = match self.get_provable_varlits() {
            Ok(v) => v,
            Err(e) => {
                return Err(e);
            },
        };
        let mut check: Vec<i32> = Vec::new();
        let mut i2: usize = 0;
        proof {
            crate::cnf::lemma_lit_set_empty();
        }
        while i2 < mc.lits.len()
            invariant
                self.wf(),
                self.same_deduction_state(old(self)),
                valid_lits(lit_seq(check@)),
                crate::litvec::sorted_lits(check@),
            decreases mc.lits@.len() - i2,
        {
            let l = mc.lits[i2];
            if crate::cnf::valid_lit_exec(l) {
                let next = insert_sorted(&check, l);
                proof {
                    assert forall|k: int| 0 <= k < lit_seq(next@).len() implies valid_lit(
                        #[trigger] lit_seq(next@)[k],
                    ) by {
                        assert(lit_seq(next@)[k] == next@[k] as int);
                        lemma_lit_set_contains(next@, k);
                        if next@[k] != l {
                            lemma_lit_set_equiv(check@, next@[k] as int);
                            let q = choose|q: int|
                                0 <= q < check@.len() && check@[q] as int == next@[k] as int;
                            assert(lit_seq(check@)[q] == check@[q] as int);
                        }
                    }
                }
                check = next;
            }
            i2 += 1;
        }
        let mut i3: usize = 0;
        while i3 < provable.len()
            invariant
                0 <= i3 <= provable@.len(),
                self.wf(),
                self.same_deduction_state(old(self)),
                valid_lits(lit_seq(provable@)),
                valid_lits(lit_seq(check@)),
                crate::litvec::sorted_lits(check@),
            decreases provable@.len() - i3,
        {
            let l = provable[i3];
            proof {
                assert(lit_seq(provable@)[i3 as int] == provable@[i3 as int] as int);
            }
            let mut pairs = self.puzzleparse.direct_or_ordered_lit_to_varvalpair(l);
            let mut in_scope = false;
            let mut q: usize = 0;
            while q < pairs.len()
                invariant
                    self.wf(),
                    self.same_deduction_state(old(self)),
                decreases pairs@.len() - q,
            {
                let mut w: usize = 0;
                while w < vars.len()
                    invariant
                        self.wf(),
                        self.same_deduction_state(old(self)),
                        0 <= q < pairs@.len(),
                    decreases vars@.len() - w,
                {
                    if pairs[q].var() == &vars[w] {
                        in_scope = true;
                    }
                    w += 1;
                }
                q += 1;
            }
            if in_scope {
                let next = insert_sorted(&check, l);
                proof {
                    assert forall|k: int| 0 <= k < lit_seq(next@).len() implies valid_lit(
                        #[trigger] lit_seq(next@)[k],
                    ) by {
                        assert(lit_seq(next@)[k] == next@[k] as int);
                        lemma_lit_set_contains(next@, k);
                        if next@[k] != l {
                            lemma_lit_set_equiv(check@, next@[k] as int);
                            let q2 = choose|q2: int|
                                0 <= q2 < check@.len() && check@[q2] as int == next@[k] as int;
                            assert(lit_seq(check@)[q2] == check@[q2] as int);
                        }
                    }
                }
                check = next;
            }
            i3 += 1;
        }
        Ok(check)
    }

    /// A context whose MUS is drawn from the constraint set and proves each
    /// of its literals: with the known literals and the MUS, each literal's
    /// denial is unsatisfiable, and none of them is already known.
    pub open spec fn mc_justified(&self, mc: MusContext) -> bool {
        &&& lit_set(mc.mus@).subset_of(self.consetv())
        &&& valid_lits(lit_seq(mc.mus@))
        &&& forall|i: int|
            0 <= i < mc.lits@.len() ==> !self.known_set().contains(#[trigger] mc.lits@[i] as int)
                && !satisfiable(
                self.cnfv(),
                self.known_set().union(lit_set(mc.mus@)).insert(-(mc.lits@[i] as int)),
            )
    }

    /// Expands a MUS to every literal it justifies: a context with the same
    /// MUS whose literal set includes the old one, every added literal
    /// re-proved against the MUS by a fresh solve.  A justified context
    /// expands to a justified context.
    pub fn get_all_lits_solved_by_mus(&mut self, mc: &MusContext) -> (r: SearchResult<MusContext>)
        requires
            old(self).wf(),
            mc.wf(),
            valid_lits(lit_seq(mc.lits@)),
            old(self).mc_justified(*mc),
        ensures
            final(self).wf(),
            final(self).same_deduction_state(old(self)),
            r matches Ok(out) ==> {
                &&& out.mus@ == mc.mus@
                &&& out.wf()
                &&& valid_lits(lit_seq(out.lits@))
                &&& lit_set(mc.lits@).subset_of(lit_set(out.lits@))
                &&& final(self).mc_justified(out)
                &&& forall|k: int|
                    0 <= k < out.lits@.len() ==> lit_set(mc.lits@).contains(
                        #[trigger] out.lits@[k] as int,
                    ) || !satisfiable(
                        old(self).cnfv(),
                        old(self).known_set().union(lit_set(mc.mus@)).insert(
                            -(out.lits@[k] as int),
                        ),
                    )
            },
    {
        let candidates = match self.get_all_lits_in_scope_for_mus(mc) {
            Ok(v) => v,
            Err(e) => {
                return Err(e);
            },
        };
        let filtered = match self.get_varlits_provable_by_mus(&candidates, mc) {
            Ok(v) => v,
            Err(e) => {
                return Err(e);
            },
        };
        let out = MusContext::new_with_more_lits(&filtered, mc);
        proof {
            assert forall|k: int| 0 <= k < out.lits@.len() implies (lit_set(mc.lits@).contains(
                #[trigger] out.lits@[k] as int,
            ) || !satisfiable(
                old(self).cnfv(),
                old(self).known_set().union(lit_set(mc.mus@)).insert(-(out.lits@[k] as int)),
            )) && !old(self).known_set().contains(out.lits@[k] as int) && !satisfiable(
                old(self).cnfv(),
                old(self).known_set().union(lit_set(mc.mus@)).insert(-(out.lits@[k] as int)),
            ) by {
                lemma_lit_set_contains(out.lits@, k);
                if !lit_set(mc.lits@).contains(out.lits@[k] as int) {
                    assert(lit_set(filtered@).contains(out.lits@[k] as int));
                    lemma_lit_set_equiv(filtered@, out.lits@[k] as int);
                    let q = choose|q: int|
                        0 <= q < filtered@.len() && filtered@[q] as int == out.lits@[k] as int;
                } else {
                    lemma_lit_set_equiv(mc.lits@, out.lits@[k] as int);
                    let q = choose|q: int|
                        0 <= q < mc.lits@.len() && mc.lits@[q] as int == out.lits@[k] as int;
                }
            }
            assert(out.mus@ == mc.mus@);
        }
        Ok(out)
    }

    /// The SAT literals that the reveal relations force true while
    /// sampling: each relation's target.
    pub closed spec fn revealsv(&self) -> Set<int> {
        reveal_targets(self.puzzleparse.reveal_map@)
    }

    /// A random sample of literals consistent with the constraints: each
    /// chosen literal is kept only if a solution still exists with it, so
    /// the sample extends any consistent state.  With `steps`, the walk
    /// stops early and is completed from one model.  Without `steps`, on a
    /// consistent puzzle every decision literal is decided one way or the
    /// other.
    pub fn random_solution(
        &mut self,
        rng: &mut rand_chacha::ChaCha20Rng,
        steps: Option<usize>,
    ) -> (r: SearchResult<Vec<i32>>)
        requires
            old(self).wf(),
        ensures
            final(self).wf(),
            final(self).same_deduction_state(old(self)),
            r matches Ok(v) ==> valid_lits(lit_seq(v@)),
            r matches Ok(v) ==> (satisfiable(
                old(self).cnfv(),
                old(self).base_set().union(old(self).revealsv()),
            ) ==> satisfiable(
                old(self).cnfv(),
                old(self).base_set().union(old(self).revealsv()).union(lit_set(v@)),
            )),
            r matches Ok(v) ==> (steps is None ==> (satisfiable(
                old(self).cnfv(),
                old(self).base_set().union(old(self).revealsv()),
            ) ==> forall|l: int|
                old(self).varsetv().contains(l) ==> lit_set(v@).contains(l) || lit_set(
                    v@,
                ).contains(-l))),
    {
        let ghost bset = old(self).base_set().union(old(self).revealsv());
        let mut solution: Vec<i32> = Vec::new();
        let mut litorig = self.base_assumptions();
        let mut i: usize = 0;
        proof {
            assert(lit_set(litorig@) =~= self.base_set().union(
                reveal_targets(self.puzzleparse.reveal_map@.subrange(0, 0)),
            )) by {
                assert forall|x: int|
                    !reveal_targets(self.puzzleparse.reveal_map@.subrange(0, 0)).contains(x) by {}
            }
        }
        while i < self.puzzleparse.reveal_map.len()
            invariant
                0 <= i <= self.puzzleparse.reveal_map@.len(),
                self.wf(),
                *self == *old(self),
                valid_lits(lit_seq(litorig@)),
                lit_set(litorig@) =~= self.base_set().union(
                    reveal_targets(self.puzzleparse.reveal_map@.subrange(0, i as int)),
                ),
            decreases self.puzzleparse.reveal_map@.len() - i,
        {
            let ghost lpre = litorig@;
            let ghost rmap = self.puzzleparse.reveal_map@;
            let rv = self.puzzleparse.reveal_map[i].1;
            litorig.push(rv);
            proof {
                lemma_lit_set_push(lpre, rv);
                assert forall|k: int| 0 <= k < lit_seq(litorig@).len() implies valid_lit(
                    #[trigger] lit_seq(litorig@)[k],
                ) by {
                    assert(lit_seq(litorig@)[k] == litorig@[k] as int);
                    if k < lpre.len() {
                        assert(lit_seq(lpre)[k] == lpre[k] as int);
                    }
                }
                assert(reveal_targets(rmap.subrange(0, i + 1)) =~= reveal_targets(
                    rmap.subrange(0, i as int),
                ).insert(rv as int)) by {
                    assert forall|x: int|
                        reveal_targets(rmap.subrange(0, i + 1)).contains(x) implies reveal_targets(
                        rmap.subrange(0, i as int),
                    ).insert(rv as int).contains(x) by {
                        let q = choose|q: int|
                            0 <= q < rmap.subrange(0, i + 1).len() && (#[trigger] rmap.subrange(
                                0,
                                i + 1,
                            )[q]).1 as int == x;
                        if q < i {
                            assert(rmap.subrange(0, i as int)[q].1 as int == x);
                        }
                    }
                    assert forall|x: int|
                        reveal_targets(rmap.subrange(0, i as int)).insert(
                            rv as int,
                        ).contains(x) implies reveal_targets(rmap.subrange(0, i + 1)).contains(
                        x,
                    ) by {
                        if x == rv as int {
                            assert(rmap.subrange(0, i + 1)[i as int].1 as int == x);
                        } else {
                            let q = choose|q: int|
                                0 <= q < rmap.subrange(0, i as int).len() && (
                                #[trigger] rmap.subrange(0, i as int)[q]).1 as int == x;
                            assert(rmap.subrange(0, i + 1)[q].1 as int == x);
                        }
                    }
                }
            }
            i += 1;
        }
        proof {
            assert(self.puzzleparse.reveal_map@.subrange(
                0,
                self.puzzleparse.reveal_map@.len() as int,
            ) =~= self.puzzleparse.reveal_map@);
            assert(lit_set(litorig@) =~= bset);
        }
        let mut lits_to_check = crate::musdict::copy_lits(&self.puzzleparse.varset_lits);
        proof {
            assert(valid_lits(lit_seq(lits_to_check@)));
            assert(lit_set(lits_to_check@) == old(self).varsetv());
        }
        crate::rng::shuffle_lits(&mut lits_to_check, rng);
        let mut remaining = steps;
        let mut j: usize = 0;
        proof {
            crate::cnf::lemma_lit_set_empty();
        }
        while j < lits_to_check.len()
            invariant
                0 <= j <= lits_to_check@.len(),
                self.wf(),
                self.same_deduction_state(old(self)),
                self.known_set() == old(self).known_set(),
                valid_lits(lit_seq(lits_to_check@)),
                lit_set(lits_to_check@) == old(self).varsetv(),
                valid_lits(lit_seq(litorig@)),
                valid_lits(lit_seq(solution@)),
                bset == old(self).base_set().union(old(self).revealsv()),
                lit_set(litorig@) =~= bset.union(lit_set(solution@)),
                solution@.len() > 0 ==> satisfiable(
                    old(self).cnfv(),
                    old(self).known_set().union(lit_set(litorig@)),
                ),
                remaining is Some ==> steps is Some,
                forall|k: int|
                    0 <= k < j ==> lit_set(solution@).contains(
                        #[trigger] lits_to_check@[k] as int,
                    ) || lit_set(solution@).contains(-(lits_to_check@[k] as int)),
            decreases lits_to_check@.len() - j,
        {
            let l = lits_to_check[j];
            proof {
                assert(lit_seq(lits_to_check@)[j as int] == lits_to_check@[j as int] as int);
            }
            let test_lit = if crate::rng::rng_bool(rng) {
                l
            } else {
                -l
            };
            let mut chosen: Option<i32> = None;
            let mut assumps = crate::musdict::copy_lits(&litorig);
            let ghost apre = assumps@;
            assumps.push(test_lit);
            proof {
                lemma_valid_push_seq(apre, litorig@, assumps@, test_lit);
                lemma_lit_set_push(apre, test_lit);
            }
            match self.satcore.assumption_solve(&self.knownlits, &assumps) {
                Err(e) => {
                    return Err(e);
                },
                Ok(true) => {
                    chosen = Some(test_lit);
                },
                Ok(false) => {
                    let other = -test_lit;
                    let mut assumps2 = crate::musdict::copy_lits(&litorig);
                    let ghost apre2 = assumps2@;
                    assumps2.push(other);
                    proof {
                        lemma_valid_push_seq(apre2, litorig@, assumps2@, other);
                        lemma_lit_set_push(apre2, other);
                    }
                    match self.satcore.assumption_solve(&self.knownlits, &assumps2) {
                        Err(e) => {
                            return Err(e);
                        },
                        Ok(true) => {
                            chosen = Some(other);
                        },
                        Ok(false) => {
                            // Neither polarity extends the state: it is
                            // unsatisfiable, which contradicts any accepted
                            // choice, so the walk can only be empty here.
                            proof {
                                let a = old(self).known_set().union(lit_set(litorig@));
                                assert(a.insert(test_lit as int) =~= old(self).known_set().union(
                                    lit_set(assumps@),
                                ));
                                assert(a.insert(-(test_lit as int)) =~= old(
                                    self,
                                ).known_set().union(lit_set(assumps2@)));
                                crate::cnf::lemma_unsat_both_polarities(
                                    old(self).cnfv(),
                                    a,
                                    test_lit as int,
                                );
                                if solution@.len() > 0 {
                                    assert(false);
                                }
                                assert(lit_set(solution@) =~= Set::<int>::empty());
                                assert(lit_set(litorig@) =~= bset);
                                assert(old(self).known_set().subset_of(bset)) by {
                                    assert forall|x: int|
                                        old(self).known_set().contains(x) implies bset.contains(
                                        x,
                                    ) by {
                                        assert(old(self).base_set().contains(x));
                                    }
                                }
                                assert(a =~= bset);
                            }
                            return Ok(solution);
                        },
                    }
                },
            }
            if let Some(c) = chosen {
                let ghost spre = solution@;
                let ghost opre = litorig@;
                solution.push(c);
                litorig.push(c);
                proof {
                    lemma_valid_push_seq(spre, spre, solution@, c);
                    lemma_valid_push_seq(opre, opre, litorig@, c);
                    lemma_lit_set_push(spre, c);
                    lemma_lit_set_push(opre, c);
                    assert(lit_set(litorig@) =~= bset.union(lit_set(solution@)));
                    assert(old(self).known_set().union(lit_set(litorig@)) =~= old(
                        self,
                    ).known_set().union(lit_set(opre)).insert(c as int));
                    assert(c == test_lit || c as int == -(test_lit as int));
                    assert(lit_set(solution@).contains(lits_to_check@[j as int] as int)
                        || lit_set(solution@).contains(-(lits_to_check@[j as int] as int)));
                }
            }
            // With a step budget, finish from one full model.
            if let Some(st) = remaining {
                if st == 0 {
                    let sol = match self.satcore.assumption_solve_solution(
                        &self.knownlits,
                        &litorig,
                        &lits_to_check,
                    ) {
                        Ok(s) => s,
                        Err(e) => {
                            return Err(e);
                        },
                    };
                    match sol {
                        Some(vals) => {
                            let ghost a = choose|a: Set<int>|
                                {
                                    &&& crate::cnf::cnf_true(a, old(self).cnfv())
                                    &&& crate::cnf::assumps_true(
                                        a,
                                        old(self).known_set().union(lit_set(litorig@)),
                                    )
                                    &&& forall|q2: int|
                                        0 <= q2 < lits_to_check@.len() ==> vals@[q2]
                                            == crate::cnf::lit_true(
                                            a,
                                            #[trigger] lits_to_check@[q2] as int,
                                        )
                                };
                            proof {
                                assert forall|x: int|
                                    lit_set(litorig@).contains(x) implies crate::cnf::lit_true(
                                    a,
                                    x,
                                ) by {
                                    assert(old(self).known_set().union(
                                        lit_set(litorig@),
                                    ).contains(x));
                                }
                            }
                            let mut q: usize = 0;
                            while q < lits_to_check.len() && q < vals.len()
                                invariant
                                    0 <= q <= lits_to_check@.len(),
                                    self.wf(),
                                    self.same_deduction_state(old(self)),
                                    valid_lits(lit_seq(lits_to_check@)),
                                    valid_lits(lit_seq(solution@)),
                                    vals@.len() == lits_to_check@.len(),
                                    crate::cnf::cnf_true(a, old(self).cnfv()),
                                    forall|x: int|
                                        lit_set(solution@).contains(x) ==> crate::cnf::lit_true(
                                            a,
                                            x,
                                        ),
                                    forall|x: int|
                                        bset.contains(x) ==> crate::cnf::lit_true(a, x),
                                    forall|q2: int|
                                        0 <= q2 < lits_to_check@.len() ==> vals@[q2]
                                            == crate::cnf::lit_true(
                                            a,
                                            #[trigger] lits_to_check@[q2] as int,
                                        ),
                                decreases lits_to_check@.len() - q,
                            {
                                if vals[q] {
                                    let ghost spre = solution@;
                                    proof {
                                        assert(lit_seq(lits_to_check@)[q as int]
                                            == lits_to_check@[q as int] as int);
                                    }
                                    solution.push(lits_to_check[q]);
                                    proof {
                                        lemma_valid_push_seq(
                                            spre,
                                            spre,
                                            solution@,
                                            lits_to_check@[q as int],
                                        );
                                        lemma_lit_set_push(spre, lits_to_check@[q as int]);
                                    }
                                }
                                q += 1;
                            }
                            proof {
                                assert(satisfiable(
                                    old(self).cnfv(),
                                    bset.union(lit_set(solution@)),
                                )) by {
                                    assert(crate::cnf::assumps_true(
                                        a,
                                        bset.union(lit_set(solution@)),
                                    ));
                                }
                            }
                            return Ok(solution);
                        },
                        None => {
                            // The accepted walk is itself satisfiable, so an
                            // unsatisfiable completion cannot happen after an
                            // acceptance; an empty walk means the base is
                            // unsatisfiable.
                            proof {
                                if solution@.len() > 0 {
                                    assert(false);
                                }
                                assert(lit_set(solution@) =~= Set::<int>::empty());
                                assert(lit_set(litorig@) =~= bset);
                                assert(old(self).known_set().subset_of(bset)) by {
                                    assert forall|x: int|
                                        old(self).known_set().contains(x) implies bset.contains(
                                        x,
                                    ) by {
                                        assert(old(self).base_set().contains(x));
                                    }
                                }
                                assert(old(self).known_set().union(lit_set(litorig@)) =~= bset);
                            }
                            return Ok(solution);
                        },
                    }
                }
                remaining = Some(if st > 0 {
                    st - 1
                } else {
                    0
                });
            }
            j += 1;
        }
        proof {
            if solution@.len() > 0 {
                lemma_satisfiable_subset(
                    old(self).cnfv(),
                    old(self).known_set().union(lit_set(litorig@)),
                    bset.union(lit_set(solution@)),
                );
            } else {
                assert(bset.union(lit_set(solution@)) =~= bset);
            }
            assert forall|l: int|
                old(self).varsetv().contains(l) implies lit_set(solution@).contains(l) || lit_set(
                solution@,
            ).contains(-l) by {
                lemma_lit_set_equiv(lits_to_check@, l);
                let k = choose|k: int|
                    0 <= k < lits_to_check@.len() && lits_to_check@[k] as int == l;
            }
        }
        Ok(solution)
    }

    /// The SAT literal of a puzzle literal, if it is in the bijection.
    pub fn puzlit_to_lit(&self, puzlit: &crate::model::PuzLit) -> (r: Option<i32>) {
        self.puzzleparse.puzlit_to_lit(puzlit)
    }

    /// The puzzle literals of a SAT literal, if it is in the bijection.
    pub fn lit_to_puzlit<'a>(&'a self, lit: i32) -> (r: Option<&'a Vec<crate::model::PuzLit>>) {
        self.puzzleparse.lit_to_puzlit(lit)
    }

    /// How many solver queries have been made.
    pub fn solver_calls(&self) -> u64 {
        self.satcore.solver_calls()
    }
}

/// A list with the same literal set as a valid one is valid.
proof fn lemma_valid_from_set(a: Seq<i32>, b: Seq<i32>)
    requires
        lit_set(a) == lit_set(b),
        valid_lits(lit_seq(b)),
    ensures
        valid_lits(lit_seq(a)),
{
    assert forall|k: int| 0 <= k < lit_seq(a).len() implies valid_lit(
        #[trigger] lit_seq(a)[k],
    ) by {
        assert(lit_seq(a)[k] == a[k] as int);
        lemma_lit_set_contains(a, k);
        lemma_lit_set_equiv(b, a[k] as int);
        let q = choose|q: int| 0 <= q < b.len() && b[q] as int == a[k] as int;
        assert(lit_seq(b)[q] == b[q] as int);
    }
}

/// Prefixes of MUS lists chain.
proof fn lemma_mus_prefix_trans(a: Seq<Vec<i32>>, b: Seq<Vec<i32>>, c: Seq<Vec<i32>>)
    requires
        a.is_prefix_of(b),
        b.is_prefix_of(c),
    ensures
        a.is_prefix_of(c),
{
    assert forall|t: int| 0 <= t < a.len() implies a[t] == #[trigger] c.subrange(
        0,
        a.len() as int,
    )[t] by {
        assert(a[t] == b.subrange(0, a.len() as int)[t]);
        assert(b[t] == c.subrange(0, b.len() as int)[t]);
    }
    assert(a =~= c.subrange(0, a.len() as int));
}

/// A listed singleton stays listed when the list grows at the end.
proof fn lemma_mus_listed_prefix(a: Seq<Vec<i32>>, b: Seq<Vec<i32>>, c: i32)
    requires
        PuzzleSolver::mus_listed(a, c),
        a.is_prefix_of(b),
    ensures
        PuzzleSolver::mus_listed(b, c),
{
    let k = choose|k: int| 0 <= k < a.len() && (#[trigger] a[k])@ =~= seq![c];
    assert(a[k] == b.subrange(0, a.len() as int)[k]);
    assert(b[k]@ =~= seq![c]);
}

/// Pushing a valid literal onto a valid list keeps it valid.
proof fn lemma_valid_push_seq(pre: Seq<i32>, base: Seq<i32>, post: Seq<i32>, l: i32)
    requires
        post == base.push(l),
        valid_lits(lit_seq(base)),
        valid_lit(l as int),
    ensures
        valid_lits(lit_seq(post)),
{
    assert forall|k: int| 0 <= k < lit_seq(post).len() implies valid_lit(
        #[trigger] lit_seq(post)[k],
    ) by {
        assert(lit_seq(post)[k] == post[k] as int);
        if k < base.len() {
            assert(lit_seq(base)[k] == base[k] as int);
        }
    }
}

/// The target literals of a list of reveal relations.
pub open spec fn reveal_targets(s: Seq<(i32, i32)>) -> Set<int> {
    Set::new(|x: int| exists|i: int| 0 <= i < s.len() && (#[trigger] s[i]).1 as int == x)
}

/// The key set of an optional starting dictionary.
pub open spec fn input_dom(m: Option<MusDict>) -> Set<int> {
    match m {
        Some(d) => d.dictv().dom(),
        None => Set::<int>::empty(),
    }
}

/// An identical copy of a clause database.
pub fn copy_cnf(v: &Vec<Vec<i32>>) -> (r: Vec<Vec<i32>>)
    ensures
        crate::cnf::cnf_view(r@) == crate::cnf::cnf_view(v@),
{
    let mut r: Vec<Vec<i32>> = Vec::new();
    let mut i: usize = 0;
    while i < v.len()
        invariant
            0 <= i <= v@.len(),
            r@.len() == i,
            forall|k: int| 0 <= k < i ==> (#[trigger] r@[k])@ == v@[k]@,
        decreases v@.len() - i,
    {
        r.push(crate::musdict::copy_lits(&v[i]));
        i += 1;
    }
    proof {
        assert(crate::cnf::cnf_view(r@) =~= crate::cnf::cnf_view(v@)) by {
            assert forall|k: int|
                0 <= k < r@.len() implies crate::cnf::cnf_view(r@)[k] == crate::cnf::cnf_view(
                v@,
            )[k] by {
                assert(crate::cnf::cnf_view(r@)[k] == lit_seq(r@[k]@));
                assert(crate::cnf::cnf_view(v@)[k] == lit_seq(v@[k]@));
            }
        }
    }
    r
}

} // verus!
