//! The planner: picks smallest MUSes, merges trivial steps, marks literals
//! deduced, and drives the solver to a full step-by-step solution.

use vstd::prelude::*;

use crate::cnf::{lemma_lit_set_prefix, lit_seq, lit_set, satisfiable, valid_lit, valid_lits};
use crate::model::PuzLit;
use crate::musdict::{merge_muscontexts, MusContext, MusDict};
use crate::satcore::{SearchError, SearchResult};
use crate::solver::{MusConfig, PuzzleSolver};

verus! {

/// Tuning knobs of the planner.
#[derive(Copy, Clone, Debug)]
pub struct PlannerConfig {
    /// The configuration of the small-MUS search.
    pub mus_config: MusConfig,
    /// Steps whose MUS is at most this size are all shown together.
    pub merge_small_threshold: i64,
    /// Steps whose MUS is at most this size are not shown at all.
    pub skip_small_threshold: i64,
    /// Whether a chosen MUS is expanded to every literal it justifies.
    pub expand_to_all_deductions: bool,
}

impl PlannerConfig {
    /// The default configuration.
    pub fn new_default() -> (r: PlannerConfig)
        ensures
            r.merge_small_threshold == 1,
            r.skip_small_threshold == 0,
            r.expand_to_all_deductions,
            r.mus_config.base_size_mus == 2,
            r.wf(),
    {
        PlannerConfig {
            mus_config: MusConfig::new_default(),
            merge_small_threshold: 1,
            skip_small_threshold: 0,
            expand_to_all_deductions: true,
        }
    }

    /// Whether the search knobs are within the driver's working range.
    pub open spec fn wf(&self) -> bool {
        &&& 0 <= self.mus_config.base_size_mus <= 0x7fff_ffff
        &&& 1 <= self.mus_config.mus_add_step <= 0xffff
        &&& 1 <= self.mus_config.mus_mult_step <= 0xffff
        &&& 0 <= self.mus_config.repeats <= 0xffff
    }
}

impl Default for PlannerConfig {
    fn default() -> (r: PlannerConfig)
        ensures
            r.merge_small_threshold == 1,
            r.skip_small_threshold == 0,
            r.expand_to_all_deductions,
            r.wf(),
    {
        PlannerConfig::new_default()
    }
}

/// One deduction rendered for people: the text of what was deduced and the
/// names of the constraints that justify it.
pub struct DescriptionStatement {
    /// The deduction, drawn as text.
    pub result: String,
    /// The constraints justifying it.
    pub constraints: Vec<String>,
}

impl DescriptionStatement {
    /// Builds a rendered deduction.
    pub fn new(result: String, constraints: Vec<String>) -> (r: DescriptionStatement)
        ensures
            r.result@ == result@,
            r.constraints@ == constraints@,
    {
        DescriptionStatement { result, constraints }
    }
}

/// One presented deduction: the puzzle literals deduced and the rendered
/// names of the constraints that justify them.
pub struct SolveStep {
    /// The literals this step deduces, as puzzle literals.
    pub lits: Vec<PuzLit>,
    /// The same deductions, as SAT literals.
    pub sat_lits: Vec<i32>,
    /// The MUS justifying them, as SAT literals.
    pub mus_lits: Vec<i32>,
    /// The constraints justifying them, by their rendered names.
    pub constraints: Vec<String>,
}

/// The planner: a solver plus its configuration.
pub struct PuzzlePlanner {
    psolve: PuzzleSolver,
    config: PlannerConfig,
}

impl PuzzlePlanner {
    pub closed spec fn wf(&self) -> bool {
        self.psolve.wf() && self.config.wf()
    }

    /// The literals known to be true, in order.
    pub closed spec fn knownv(&self) -> Seq<i32> {
        self.psolve.knownv()
    }

    pub closed spec fn cnfv(&self) -> Seq<Seq<int>> {
        self.psolve.cnfv()
    }

    pub closed spec fn consetv(&self) -> Set<int> {
        self.psolve.consetv()
    }

    /// Creates a planner with the default configuration.  Literals entailed
    /// by the fixed facts alone are marked deduced at once, so they never
    /// appear as steps.
    pub fn new(psolve: PuzzleSolver) -> (r: SearchResult<PuzzlePlanner>)
        requires
            psolve.wf(),
        ensures
            r matches Ok(p) ==> p.wf() && psolve.knownv().is_prefix_of(p.knownv()),
            r matches Ok(p) ==> ((psolve.cachev() is None) ==> forall|x: int|
                (#[trigger] psolve.is_candidate(-x) && !satisfiable(
                    psolve.cnfv(),
                    lit_set(psolve.knownv()).insert(-x),
                )) ==> lit_set(p.knownv()).contains(x)),
    {
        let mut pp = PuzzlePlanner { psolve, config: PlannerConfig::new_default() };
        let ghost pre = pp;
        match pp.mark_trivial_lits_as_deduced() {
            Ok(()) => {
                proof {
                    if psolve.cachev() is None {
                        assert forall|x: int|
                            (#[trigger] psolve.is_candidate(-x) && !satisfiable(
                                psolve.cnfv(),
                                lit_set(psolve.knownv()).insert(-x),
                            )) implies lit_set(pp.knownv()).contains(x) by {
                            assert(pre.open_candidates().contains(-x));
                        }
                    }
                }
                Ok(pp)
            },
            Err(e) => Err(e),
        }
    }

    /// Creates a planner with the given configuration.
    pub fn new_with_config(psolve: PuzzleSolver, config: PlannerConfig) -> (r: SearchResult<
        PuzzlePlanner,
    >)
        requires
            psolve.wf(),
            config.wf(),
        ensures
            r matches Ok(p) ==> p.wf() && psolve.knownv().is_prefix_of(p.knownv()),
            r matches Ok(p) ==> ((psolve.cachev() is None) ==> forall|x: int|
                (#[trigger] psolve.is_candidate(-x) && !satisfiable(
                    psolve.cnfv(),
                    lit_set(psolve.knownv()).insert(-x),
                )) ==> lit_set(p.knownv()).contains(x)),
    {
        let mut pp = PuzzlePlanner { psolve, config };
        let ghost pre = pp;
        match pp.mark_trivial_lits_as_deduced() {
            Ok(()) => {
                proof {
                    if psolve.cachev() is None {
                        assert forall|x: int|
                            (#[trigger] psolve.is_candidate(-x) && !satisfiable(
                                psolve.cnfv(),
                                lit_set(psolve.knownv()).insert(-x),
                            )) implies lit_set(pp.knownv()).contains(x) by {
                            assert(pre.open_candidates().contains(-x));
                        }
                    }
                }
                Ok(pp)
            },
            Err(e) => Err(e),
        }
    }

    /// Marks every literal entailed by the fixed facts alone (a MUS of size
    /// zero) as deduced.  On success, starting without a stale provable
    /// cache, every open candidate deduction that the fixed facts alone
    /// force is known afterwards.
    pub fn mark_trivial_lits_as_deduced(&mut self) -> (r: SearchResult<()>)
        requires
            old(self).wf(),
        ensures
            final(self).wf(),
            old(self).knownv().is_prefix_of(final(self).knownv()),
            (r is Ok && old(self).cached_provable() is None) ==> forall|x: int|
                (#[trigger] old(self).open_candidates().contains(-x) && !satisfiable(
                    old(self).cnfv(),
                    lit_set(old(self).knownv()).insert(-x),
                )) ==> lit_set(final(self).knownv()).contains(x),
    {
        let varlits = match self.psolve.get_provable_varlits() {
            Ok(v) => v,
            Err(e) => {
                return Err(e);
            },
        };
        let trivial = match self.psolve.trivial_lits(&varlits) {
            Ok(v) => v,
            Err(e) => {
                return Err(e);
            },
        };
        let res = self.mark_lits_as_deduced(&trivial);
        proof {
            if res is Ok && old(self).cached_provable() is None {
                assert forall|x: int|
                    (#[trigger] old(self).open_candidates().contains(-x) && !satisfiable(
                        old(self).cnfv(),
                        lit_set(old(self).knownv()).insert(-x),
                    )) implies lit_set(self.knownv()).contains(x) by {
                    assert(old(self).psolve.is_candidate(-x));
                    assert(lit_set(old(self).knownv()).insert(-x).subset_of(
                        old(self).psolve.base_set().insert(-x),
                    ));
                    crate::cnf::lemma_unsat_superset(
                        old(self).cnfv(),
                        lit_set(old(self).knownv()).insert(-x),
                        old(self).psolve.base_set().insert(-x),
                    );
                    assert(lit_set(varlits@).contains(x));
                    crate::cnf::lemma_lit_set_equiv(varlits@, x);
                    let k = choose|k: int| 0 <= k < varlits@.len() && varlits@[k] as int == x;
                    assert(!satisfiable(
                        old(self).cnfv(),
                        lit_set(old(self).knownv()).insert(-(varlits@[k] as int)),
                    ));
                    assert(lit_set(trivial@).contains(x));
                }
            }
        }
        res
    }

    /// Marks one literal as deduced.
    pub fn mark_lit_as_deduced(&mut self, lit: i32)
        requires
            old(self).wf(),
            valid_lit(lit as int),
        ensures
            final(self).wf(),
            old(self).knownv().is_prefix_of(final(self).knownv()),
            lit_set(final(self).knownv()).contains(lit as int),
    {
        self.psolve.add_known_lit(lit);
    }

    /// Marks several literals as deduced, in order: afterwards every one of
    /// them is known.
    pub fn mark_lits_as_deduced(&mut self, lits: &Vec<i32>) -> (r: SearchResult<()>)
        requires
            old(self).wf(),
            valid_lits(lit_seq(lits@)),
        ensures
            final(self).wf(),
            old(self).knownv().is_prefix_of(final(self).knownv()),
            lit_set(lits@).subset_of(lit_set(final(self).knownv())),
    {
        let mut i: usize = 0;
        while i < lits.len()
            invariant
                0 <= i <= lits@.len(),
                self.wf(),
                valid_lits(lit_seq(lits@)),
                old(self).knownv().is_prefix_of(self.knownv()),
                lit_set(lits@.subrange(0, i as int)).subset_of(lit_set(self.knownv())),
            decreases lits@.len() - i,
        {
            proof {
                assert(lit_seq(lits@)[i as int] == lits@[i as int] as int);
            }
            let ghost kb = self.knownv();
            self.psolve.add_known_lit(lits[i]);
            proof {
                lemma_prefix_trans(old(self).knownv(), kb, self.knownv());
                lemma_lit_set_prefix(kb, self.knownv());
                assert(lits@.subrange(0, i + 1) =~= lits@.subrange(0, i as int).push(
                    lits@[i as int],
                ));
                crate::cnf::lemma_lit_set_push(lits@.subrange(0, i as int), lits@[i as int]);
            }
            i += 1;
        }
        proof {
            assert(lits@.subrange(0, lits@.len() as int) =~= lits@);
        }
        Ok(())
    }

    /// All literals known to be true, including reveal consequences.
    pub fn get_all_known_lits(&self) -> (r: &Vec<i32>)
        ensures
            r@ == self.knownv(),
    {
        self.psolve.get_known_lits()
    }

    /// The literals currently deducible.
    pub fn get_provable_varlits(&mut self) -> (r: SearchResult<Vec<i32>>)
        requires
            old(self).wf(),
        ensures
            final(self).wf(),
            final(self).knownv() == old(self).knownv(),
    {
        self.psolve.get_provable_varlits()
    }

    /// Everything the solver's deduction queries depend on, and its
    /// configuration, are unchanged.
    pub open spec fn same_puzzle(&self, other: &Self) -> bool {
        &&& self.cnfv() == other.cnfv()
        &&& self.consetv() == other.consetv()
    }

    /// A justified context, as the solver defines it: its MUS is drawn from
    /// the constraints and proves each of its literals, none already known.
    pub closed spec fn mc_justified(&self, mc: MusContext) -> bool {
        self.psolve.mc_justified(mc)
    }

    /// The provable cache is present and empty: nothing remains deducible
    /// as of the last query.
    pub closed spec fn nothing_provable(&self) -> bool {
        self.psolve.cachev() matches Some(c) && c.len() == 0
    }

    /// The set of open candidate literals: decision literals neither known
    /// nor refuted.
    pub closed spec fn open_candidates(&self) -> Set<int> {
        Set::new(|l: int| self.psolve.is_candidate(l))
    }

    /// The provable cache, if one is present.
    pub closed spec fn cached_provable(&self) -> Option<Seq<i32>> {
        self.psolve.cachev()
    }

    /// A dictionary of smallish MUSes for everything currently provable.
    /// Every stored MUS is justified against the current state.
    pub fn all_smallish_muses(&mut self) -> (r: SearchResult<MusDict>)
        requires
            old(self).wf(),
        ensures
            final(self).wf(),
            final(self).knownv() == old(self).knownv(),
            final(self).same_puzzle(old(self)),
            r matches Ok(d) ==> d.wf() && final(self).psolve_dict_justified(d),
    {
        let varlits = match self.psolve.get_provable_varlits() {
            Ok(v) => v,
            Err(e) => {
                return Err(e);
            },
        };
        let cfg = self.config.mus_config;
        Ok(self.psolve.get_many_vars_small_mus_quick(&varlits, &cfg, None))
    }

    /// Whether the solver holds every stored MUS of the dictionary to be
    /// justified.
    pub closed spec fn psolve_dict_justified(&self, d: MusDict) -> bool {
        self.psolve.dict_justified(d.dictv())
    }

    /// A dictionary of MUSes including ones past the first success, for
    /// difficulty maps.
    pub fn all_muses_with_larger(&mut self) -> (r: SearchResult<MusDict>)
        requires
            old(self).wf(),
        ensures
            final(self).wf(),
            final(self).knownv() == old(self).knownv(),
            final(self).same_puzzle(old(self)),
            r matches Ok(d) ==> d.wf() && final(self).psolve_dict_justified(d),
    {
        let varlits = match self.psolve.get_provable_varlits() {
            Ok(v) => v,
            Err(e) => {
                return Err(e);
            },
        };
        let mut cfg = self.config.mus_config;
        cfg.find_bigger = true;
        Ok(self.psolve.get_many_vars_small_mus_quick(&varlits, &cfg, None))
    }

    /// A dictionary of smallish MUSes for the given literals only; the
    /// literals must still be open (not yet known).
    pub fn muses_for_literals(&mut self, lits: &Vec<i32>) -> (r: MusDict)
        requires
            old(self).wf(),
            valid_lits(lit_seq(lits@)),
            forall|k: int|
                0 <= k < lits@.len() ==> !lit_set(old(self).knownv()).contains(
                    #[trigger] lits@[k] as int,
                ),
        ensures
            final(self).wf(),
            old(self).knownv() == final(self).knownv(),
            final(self).same_puzzle(old(self)),
            r.wf(),
            final(self).psolve_dict_justified(r),
    {
        let cfg = self.config.mus_config;
        self.psolve.get_many_vars_small_mus_quick(lits, &cfg, None)
    }

    /// One smallest stored context per literal, keeping only those of
    /// overall minimum size.  Every returned context is justified.
    pub fn smallest_muses(&mut self) -> (r: SearchResult<Vec<MusContext>>)
        requires
            old(self).wf(),
        ensures
            final(self).wf(),
            final(self).knownv() == old(self).knownv(),
            final(self).same_puzzle(old(self)),
            r matches Ok(v) ==> crate::musdict::all_wf(v@) && (forall|k: int|
                0 <= k < v@.len() ==> final(self).mc_justified(#[trigger] v@[k]) && valid_lits(
                    lit_seq(v@[k].mus@),
                ) && valid_lits(lit_seq(v@[k].lits@))),
    {
        let muses = match self.all_smallish_muses() {
            Ok(d) => d,
            Err(e) => {
                return Err(e);
            },
        };
        let min = match muses.min() {
            Some(m) => m,
            None => {
                return Ok(Vec::new());
            },
        };
        let entries = muses.entries();
        let mut out: Vec<MusContext> = Vec::new();
        let mut i: usize = 0;
        while i < entries.len()
            invariant
                0 <= i <= entries@.len(),
                self.wf(),
                muses.wf(),
                self.psolve_dict_justified(muses),
                crate::musdict::all_wf(out@),
                forall|i2: int|
                    0 <= i2 < entries@.len() ==> {
                        let cs = (#[trigger] entries@[i2]).contexts@;
                        &&& cs.len() > 0
                        &&& crate::musdict::all_wf(cs)
                        &&& muses.dictv().dom().contains(entries@[i2].key as int)
                        &&& muses.dictv()[entries@[i2].key as int]
                            == crate::musdict::mcs_view(cs)
                    },
                forall|k: int|
                    0 <= k < out@.len() ==> self.mc_justified(#[trigger] out@[k]) && valid_lits(
                        lit_seq(out@[k].mus@),
                    ) && valid_lits(lit_seq(out@[k].lits@)),
            decreases entries@.len() - i,
        {
            let entry = &entries[i];
            if entry.contexts.len() > 0 {
                let first = &entry.contexts[0];
                if first.mus.len() <= min {
                    let ghost opre = out@;
                    let ghost key = entries@[i as int].key as int;
                    proof {
                        assert(entries@[i as int].contexts@[0].wf());
                        lemma_dict_first_context_justified(
                            &self.psolve,
                            muses.dictv(),
                            key,
                            entries@[i as int].contexts@[0],
                            crate::musdict::mcs_view(entries@[i as int].contexts@),
                        );
                    }
                    out.push(first.duplicate());
                    proof {
                        let dup = out@[out@.len() - 1];
                        assert(dup.lits@ == entries@[i as int].contexts@[0].lits@);
                        assert(dup.mus@ == entries@[i as int].contexts@[0].mus@);
                        assert(self.mc_justified(dup)) by {
                            assert(self.psolve.mc_justified(entries@[i as int].contexts@[0]));
                        }
                        assert forall|k: int| 0 <= k < out@.len() implies self.mc_justified(
                            #[trigger] out@[k],
                        ) && (#[trigger] out@[k]).wf() && valid_lits(lit_seq(out@[k].mus@))
                            && valid_lits(lit_seq(out@[k].lits@)) by {
                            if k < opre.len() {
                                assert(out@[k] == opre[k]);
                            }
                        }
                    }
                }
            }
            i += 1;
        }
        Ok(out)
    }

    /// The smallest MUSes, merged and filtered by the planner's
    /// configuration: all of them when they are small enough, otherwise a
    /// single one, optionally expanded to everything it justifies.  Every
    /// returned context is justified.
    pub fn smallest_muses_with_config(&mut self) -> (r: SearchResult<Vec<MusContext>>)
        requires
            old(self).wf(),
        ensures
            final(self).wf(),
            final(self).knownv() == old(self).knownv(),
            final(self).same_puzzle(old(self)),
            r matches Ok(v) ==> forall|k: int|
                0 <= k < v@.len() ==> final(self).mc_justified(#[trigger] v@[k]) && valid_lits(
                    lit_seq(v@[k].mus@),
                ) && valid_lits(lit_seq(v@[k].lits@)),
    {
        let muses = match self.smallest_muses() {
            Ok(v) => v,
            Err(e) => {
                return Err(e);
            },
        };
        if muses.len() == 0 {
            return Ok(muses);
        }
        let merged = merge_muscontexts(&muses);
        proof {
            lemma_merged_all_justified(&self.psolve, muses@, merged@);
        }
        if merged.len() == 0 {
            return Ok(merged);
        }
        let small_enough = {
            let len0 = merged[0].mus.len();
            (len0 as u64) <= 0x7fff_ffff_ffff_ffffu64 && (self.config.merge_small_threshold >= 0
                && (len0 as u64) <= (self.config.merge_small_threshold as u64))
        };
        if small_enough {
            return Ok(merged);
        }
        if self.config.expand_to_all_deductions {
            let expanded = match self.psolve.get_all_lits_solved_by_mus(&merged[0]) {
                Ok(mc) => mc,
                Err(e) => {
                    return Err(e);
                },
            };
            let mut out: Vec<MusContext> = Vec::new();
            out.push(expanded);
            Ok(out)
        } else {
            let dup = merged[0].duplicate();
            proof {
                assert(dup.lits@ == merged@[0].lits@ && dup.mus@ == merged@[0].mus@);
                assert(self.mc_justified(dup)) by {
                    assert(self.psolve.mc_justified(merged@[0]));
                }
            }
            let mut out: Vec<MusContext> = Vec::new();
            out.push(dup);
            Ok(out)
        }
    }

    /// A context drawn for people: the puzzle literals it deduces and the
    /// names of its constraints, together with the underlying SAT literals.
    pub fn mus_to_user_mus(&self, mc: &MusContext) -> (r: SolveStep)
        ensures
            r.sat_lits@ == mc.lits@,
            r.mus_lits@ == mc.mus@,
    {
        let mut lits: Vec<PuzLit> = Vec::new();
        let mut i: usize = 0;
        while i < mc.lits.len()
            decreases mc.lits@.len() - i,
        {
            if let Some(ps) = self.psolve.lit_to_puzlit(mc.lits[i]) {
                let mut k: usize = 0;
                while k < ps.len()
                    decreases ps@.len() - k,
                {
                    lits.push(ps[k].duplicate());
                    k += 1;
                }
            }
            i += 1;
        }
        let mut constraints: Vec<String> = Vec::new();
        let mut j: usize = 0;
        while j < mc.mus.len()
            decreases mc.mus@.len() - j,
        {
            if let Some(name) = self.psolve.puzzleparse().lit_to_con(mc.mus[j]) {
                constraints.push(name.clone());
            }
            j += 1;
        }
        SolveStep {
            lits,
            sat_lits: crate::musdict::copy_lits(&mc.lits),
            mus_lits: crate::musdict::copy_lits(&mc.mus),
            constraints,
        }
    }

    /// Solves the puzzle step by step.  Each element of the result is one
    /// presented round: deductions made together, each justified by its
    /// constraints.  On success nothing remains provable, every emitted
    /// literal is known, and each step was justified against some known set
    /// reached during the run.  A run that stops making progress reports the
    /// recoverable search error instead of spinning.
    pub fn quick_solve(&mut self) -> (r: SearchResult<Vec<Vec<SolveStep>>>)
        requires
            old(self).wf(),
        ensures
            final(self).wf(),
            final(self).same_puzzle(old(self)),
            old(self).knownv().is_prefix_of(final(self).knownv()),
            r matches Ok(steps) ==> final(self).nothing_provable(),
            r matches Ok(steps) ==> forall|a: int, b: int|
                0 <= a < steps@.len() && 0 <= b < steps@[a]@.len() ==> {
                    &&& lit_set((#[trigger] steps@[a]@[b]).sat_lits@).subset_of(
                        lit_set(final(self).knownv()),
                    )
                    &&& step_justified(
                        final(self).cnfv(),
                        final(self).consetv(),
                        lit_set(old(self).knownv()),
                        lit_set(final(self).knownv()),
                        steps@[a]@[b],
                    )
                },
    {
        let mut solvesteps: Vec<Vec<SolveStep>> = Vec::new();
        let mut rounds = self.psolve.puzzleparse().litmap.len();
        if rounds < usize::MAX {
            rounds += 1;
        }
        while rounds > 0
            invariant
                self.wf(),
                self.same_puzzle(old(self)),
                old(self).knownv().is_prefix_of(self.knownv()),
                forall|a: int, b: int|
                    0 <= a < solvesteps@.len() && 0 <= b < solvesteps@[a]@.len() ==> {
                        &&& lit_set((#[trigger] solvesteps@[a]@[b]).sat_lits@).subset_of(
                            lit_set(self.knownv()),
                        )
                        &&& step_justified(
                            self.cnfv(),
                            self.consetv(),
                            lit_set(old(self).knownv()),
                            lit_set(self.knownv()),
                            solvesteps@[a]@[b],
                        )
                    },
            decreases rounds,
        {
            rounds -= 1;
            let provable = match self.psolve.get_provable_varlits() {
                Ok(v) => v,
                Err(e) => {
                    return Err(e);
                },
            };
            if provable.len() == 0 {
                return Ok(solvesteps);
            }
            let muses = match self.smallest_muses_with_config() {
                Ok(v) => v,
                Err(e) => {
                    return Err(e);
                },
            };
            if muses.len() == 0 {
                // Nothing was justified this round; report the recoverable
                // search error rather than spin.
                return Err(SearchError::Limit);
            }
            // The known set against which this round's contexts are
            // justified.
            let ghost kr = lit_set(self.knownv());
            proof {
                lemma_lit_set_prefix(old(self).knownv(), self.knownv());
            }
            let before = self.psolve.get_known_lits().len();
            let mut mi: usize = 0;
            while mi < muses.len()
                invariant
                    0 <= mi <= muses@.len(),
                    self.wf(),
                    self.same_puzzle(old(self)),
                    old(self).knownv().is_prefix_of(self.knownv()),
                    kr.subset_of(lit_set(self.knownv())),
                    lit_set(old(self).knownv()).subset_of(kr),
                    forall|k: int|
                        0 <= k < muses@.len() ==> valid_lits(
                            lit_seq((#[trigger] muses@[k]).lits@),
                        ) && valid_lits(lit_seq(muses@[k].mus@)) && lit_set(
                            muses@[k].mus@,
                        ).subset_of(self.consetv()) && (forall|i: int|
                            0 <= i < muses@[k].lits@.len() ==> !kr.contains(
                                #[trigger] muses@[k].lits@[i] as int,
                            ) && !satisfiable(
                                self.cnfv(),
                                kr.union(lit_set(muses@[k].mus@)).insert(
                                    -(muses@[k].lits@[i] as int),
                                ),
                            )),
                    forall|k: int|
                        0 <= k < mi ==> lit_set((#[trigger] muses@[k]).lits@).subset_of(
                            lit_set(self.knownv()),
                        ),
                    forall|a: int, b: int|
                        0 <= a < solvesteps@.len() && 0 <= b < solvesteps@[a]@.len() ==> {
                            &&& lit_set((#[trigger] solvesteps@[a]@[b]).sat_lits@).subset_of(
                                lit_set(self.knownv()),
                            )
                            &&& step_justified(
                                self.cnfv(),
                                self.consetv(),
                                lit_set(old(self).knownv()),
                                lit_set(self.knownv()),
                                solvesteps@[a]@[b],
                            )
                        },
                decreases muses@.len() - mi,
            {
                let mc = &muses[mi];
                let mut li: usize = 0;
                while li < mc.lits.len()
                    invariant
                        0 <= li <= mc.lits@.len(),
                        mc == &muses@[mi as int],
                        0 <= mi < muses@.len(),
                        self.wf(),
                        self.same_puzzle(old(self)),
                        old(self).knownv().is_prefix_of(self.knownv()),
                        kr.subset_of(lit_set(self.knownv())),
                        lit_set(old(self).knownv()).subset_of(kr),
                        valid_lits(lit_seq(mc.lits@)),
                        lit_set(mc.lits@.subrange(0, li as int)).subset_of(
                            lit_set(self.knownv()),
                        ),
                        forall|k: int|
                            0 <= k < mi ==> lit_set((#[trigger] muses@[k]).lits@).subset_of(
                                lit_set(self.knownv()),
                            ),
                        forall|a: int, b: int|
                            0 <= a < solvesteps@.len() && 0 <= b < solvesteps@[a]@.len() ==> {
                                &&& lit_set(
                                    (#[trigger] solvesteps@[a]@[b]).sat_lits@,
                                ).subset_of(lit_set(self.knownv()))
                                &&& step_justified(
                                    self.cnfv(),
                                    self.consetv(),
                                    lit_set(old(self).knownv()),
                                    lit_set(self.knownv()),
                                    solvesteps@[a]@[b],
                                )
                            },
                    decreases mc.lits@.len() - li,
                {
                    let l = mc.lits[li];
                    proof {
                        assert(lit_seq(mc.lits@)[li as int] == mc.lits@[li as int] as int);
                    }
                    let ghost kb = self.knownv();
                    self.psolve.add_known_lit(l);
                    proof {
                        lemma_prefix_trans(old(self).knownv(), kb, self.knownv());
                        lemma_lit_set_prefix(kb, self.knownv());
                        assert(mc.lits@.subrange(0, li + 1) =~= mc.lits@.subrange(
                            0,
                            li as int,
                        ).push(mc.lits@[li as int]));
                        crate::cnf::lemma_lit_set_push(
                            mc.lits@.subrange(0, li as int),
                            mc.lits@[li as int],
                        );
                    }
                    li += 1;
                }
                proof {
                    assert(mc.lits@.subrange(0, mc.lits@.len() as int) =~= mc.lits@);
                }
                mi += 1;
            }
            let skip = {
                let len0 = muses[0].mus.len();
                self.config.skip_small_threshold >= 0 && (len0 as u64)
                    <= (self.config.skip_small_threshold as u64)
            };
            if !skip {
                let mut steps: Vec<SolveStep> = Vec::new();
                let mut mi2: usize = 0;
                while mi2 < muses.len()
                    invariant
                        0 <= mi2 <= muses@.len(),
                        self.wf(),
                        self.same_puzzle(old(self)),
                        old(self).knownv().is_prefix_of(self.knownv()),
                        kr.subset_of(lit_set(self.knownv())),
                        lit_set(old(self).knownv()).subset_of(kr),
                        forall|k: int|
                            0 <= k < muses@.len() ==> lit_set(
                                (#[trigger] muses@[k]).lits@,
                            ).subset_of(lit_set(self.knownv())) && lit_set(
                                muses@[k].mus@,
                            ).subset_of(self.consetv()) && (forall|i: int|
                                0 <= i < muses@[k].lits@.len() ==> !kr.contains(
                                    #[trigger] muses@[k].lits@[i] as int,
                                ) && !satisfiable(
                                    self.cnfv(),
                                    kr.union(lit_set(muses@[k].mus@)).insert(
                                        -(muses@[k].lits@[i] as int),
                                    ),
                                )),
                        forall|b: int|
                            0 <= b < steps@.len() ==> {
                                &&& lit_set((#[trigger] steps@[b]).sat_lits@).subset_of(
                                    lit_set(self.knownv()),
                                )
                                &&& step_justified_at(
                                    self.cnfv(),
                                    self.consetv(),
                                    kr,
                                    steps@[b],
                                )
                            },
                    decreases muses@.len() - mi2,
                {
                    let step = self.mus_to_user_mus(&muses[mi2]);
                    proof {
                        assert(step_justified_at(self.cnfv(), self.consetv(), kr, step));
                    }
                    steps.push(step);
                    mi2 += 1;
                }
                let ghost pre_steps = solvesteps@;
                solvesteps.push(steps);
                proof {
                    assert forall|a: int, b: int|
                        0 <= a < solvesteps@.len() && 0 <= b < solvesteps@[a]@.len() implies {
                        &&& lit_set((#[trigger] solvesteps@[a]@[b]).sat_lits@).subset_of(
                            lit_set(self.knownv()),
                        )
                        &&& step_justified(
                            self.cnfv(),
                            self.consetv(),
                            lit_set(old(self).knownv()),
                            lit_set(self.knownv()),
                            solvesteps@[a]@[b],
                        )
                    } by {
                        if a < pre_steps.len() {
                            assert(solvesteps@[a] == pre_steps[a]);
                        } else {
                            lemma_lit_set_prefix(old(self).knownv(), self.knownv());
                            assert(step_justified(
                                self.cnfv(),
                                self.consetv(),
                                lit_set(old(self).knownv()),
                                lit_set(self.knownv()),
                                solvesteps@[a]@[b],
                            )) by {
                                assert(step_justified_at(
                                    self.cnfv(),
                                    self.consetv(),
                                    kr,
                                    solvesteps@[a]@[b],
                                ));
                            }
                        }
                    }
                }
            }
            if self.psolve.get_known_lits().len() == before {
                // No progress: report the recoverable search error rather
                // than spin.
                return Err(SearchError::Limit);
            }
        }
        Err(SearchError::Limit)
    }

    /// Drains every deducible literal, then reports whether the puzzle is
    /// still consistent: `None` exactly when the constraints and everything
    /// known cannot be satisfied, otherwise how many candidate literals stay
    /// open.
    pub fn check_solvability(&mut self) -> (r: SearchResult<Option<i64>>)
        requires
            old(self).wf(),
        ensures
            final(self).wf(),
            old(self).knownv().is_prefix_of(final(self).knownv()),
            r == Ok::<Option<i64>, SearchError>(None) ==> !satisfiable(
                final(self).cnfv(),
                final(self).consetv().union(lit_set(final(self).knownv())),
            ),
            r matches Ok(Some(n)) ==> satisfiable(
                final(self).cnfv(),
                final(self).consetv().union(lit_set(final(self).knownv())),
            ) && n >= 0 && n as int == final(self).open_candidates().len(),
    {
        match self.drain_provable() {
            Ok(_) => {},
            Err(e) => {
                return Err(e);
            },
        }
        let solvable = match self.psolve.is_currently_solvable() {
            Ok(b) => b,
            Err(e) => {
                return Err(e);
            },
        };
        if solvable {
            let open_lits = self.psolve.get_literals_to_try_solving();
            proof {
                assert(lit_set(open_lits@) =~= self.open_candidates());
                crate::litvec::lemma_sorted_lits_len(open_lits@);
            }
            if (open_lits.len() as u64) > 0x7fff_ffff_ffff_ffffu64 {
                // A count beyond the result type's range is treated as a
                // failed search.
                return Err(SearchError::Limit);
            }
            Ok(Some(open_lits.len() as i64))
        } else {
            Ok(None)
        }
    }

    /// Marks deducible literals as known until none remain, returning
    /// everything that became deducible on the way; every returned literal
    /// is known on return.  A drain that stops making progress reports the
    /// recoverable search error.
    fn drain_provable(&mut self) -> (r: SearchResult<Vec<i32>>)
        requires
            old(self).wf(),
        ensures
            final(self).wf(),
            final(self).same_puzzle(old(self)),
            old(self).knownv().is_prefix_of(final(self).knownv()),
            r matches Ok(v) ==> valid_lits(lit_seq(v@)),
            r matches Ok(v) ==> final(self).nothing_provable(),
            r matches Ok(v) ==> lit_set(v@).subset_of(lit_set(final(self).knownv())),
            r matches Ok(v) ==> (old(self).cached_provable() matches Some(c) ==> lit_set(
                c,
            ).subset_of(lit_set(v@))),
    {
        let mut all: Vec<i32> = Vec::new();
        let mut rounds = self.psolve.puzzleparse().litmap.len();
        if rounds < usize::MAX {
            rounds += 1;
        }
        let ghost mut first_done = false;
        proof {
            crate::cnf::lemma_lit_set_empty();
        }
        while rounds > 0
            invariant
                self.wf(),
                self.same_puzzle(old(self)),
                old(self).knownv().is_prefix_of(self.knownv()),
                valid_lits(lit_seq(all@)),
                lit_set(all@).subset_of(lit_set(self.knownv())),
                !first_done ==> *self == *old(self),
                first_done ==> (old(self).cached_provable() matches Some(c) ==> lit_set(
                    c,
                ).subset_of(lit_set(all@))),
            decreases rounds,
        {
            rounds -= 1;
            let provable = match self.psolve.get_provable_varlits() {
                Ok(v) => v,
                Err(e) => {
                    return Err(e);
                },
            };
            proof {
                if !first_done && old(self).cached_provable() is Some {
                    let c = old(self).cached_provable()->Some_0;
                    assert(provable@ == c);
                }
            }
            if provable.len() == 0 {
                proof {
                    if !first_done && old(self).cached_provable() is Some {
                        let c = old(self).cached_provable()->Some_0;
                        assert(lit_set(c).subset_of(lit_set(all@))) by {
                            assert(c.len() == 0);
                            assert forall|x: int| lit_set(c).contains(x) implies lit_set(
                                all@,
                            ).contains(x) by {
                                crate::cnf::lemma_lit_set_equiv(c, x);
                            }
                        }
                    }
                }
                return Ok(all);
            }
            let before = self.psolve.get_known_lits().len();
            let ghost round_provable = provable@;
            let mut i: usize = 0;
            while i < provable.len()
                invariant
                    0 <= i <= provable@.len(),
                    provable@ == round_provable,
                    self.wf(),
                    self.same_puzzle(old(self)),
                    old(self).knownv().is_prefix_of(self.knownv()),
                    valid_lits(lit_seq(provable@)),
                    valid_lits(lit_seq(all@)),
                    lit_set(all@).subset_of(lit_set(self.knownv())),
                    lit_set(provable@.subrange(0, i as int)).subset_of(lit_set(all@)),
                    first_done ==> (old(self).cached_provable() matches Some(c) ==> lit_set(
                        c,
                    ).subset_of(lit_set(all@))),
                decreases provable@.len() - i,
            {
                proof {
                    assert(lit_seq(provable@)[i as int] == provable@[i as int] as int);
                }
                let ghost kb = self.knownv();
                let ghost apre = all@;
                self.psolve.add_known_lit(provable[i]);
                all.push(provable[i]);
                proof {
                    lemma_prefix_trans(old(self).knownv(), kb, self.knownv());
                    lemma_lit_set_prefix(kb, self.knownv());
                    crate::cnf::lemma_lit_set_push(apre, provable@[i as int]);
                    assert(provable@.subrange(0, i + 1) =~= provable@.subrange(0, i as int).push(
                        provable@[i as int],
                    ));
                    crate::cnf::lemma_lit_set_push(
                        provable@.subrange(0, i as int),
                        provable@[i as int],
                    );
                    assert forall|k: int| 0 <= k < lit_seq(all@).len() implies valid_lit(
                        #[trigger] lit_seq(all@)[k],
                    ) by {
                        assert(lit_seq(all@)[k] == all@[k] as int);
                        if k < apre.len() {
                            assert(lit_seq(apre)[k] == apre[k] as int);
                        }
                    }
                }
                i += 1;
            }
            proof {
                assert(provable@.subrange(0, provable@.len() as int) =~= provable@);
                if !first_done && old(self).cached_provable() is Some {
                    let c = old(self).cached_provable()->Some_0;
                    assert(lit_set(c).subset_of(lit_set(all@)));
                }
                first_done = true;
            }
            if self.psolve.get_known_lits().len() == before {
                return Err(SearchError::Limit);
            }
        }
        Err(SearchError::Limit)
    }

    /// Every literal that becomes deducible, following the knock-on effects
    /// of the reveal relations to a fixed point: the union of the drain
    /// rounds.  On success nothing remains provable, every returned literal
    /// is known on return, and the result includes everything that was
    /// provable at entry.
    pub fn get_provable_varlits_including_reveals(&mut self) -> (r: SearchResult<Vec<i32>>)
        requires
            old(self).wf(),
        ensures
            final(self).wf(),
            old(self).knownv().is_prefix_of(final(self).knownv()),
            r matches Ok(v) ==> valid_lits(lit_seq(v@)),
            r matches Ok(v) ==> final(self).nothing_provable(),
            r matches Ok(v) ==> lit_set(v@).subset_of(lit_set(final(self).knownv())),
            r matches Ok(v) ==> (old(self).cached_provable() matches Some(c) ==> lit_set(
                c,
            ).subset_of(lit_set(v@))),
    {
        self.drain_provable()
    }

    /// The compiled puzzle.
    pub fn puzzle(&self) -> (r: &crate::puzzle::PuzzleParse) {
        self.psolve.puzzleparse()
    }

    /// The underlying solver, for reading its bijection and state.
    pub fn solver(&self) -> (r: &PuzzleSolver)
        ensures
            self.wf() ==> r.wf(),
    {
        &self.psolve
    }
}

/// A step justified against one particular known set: its MUS is drawn
/// from the constraints, and each deduced literal was open and has an
/// unsatisfiable denial under that known set and the MUS.
pub open spec fn step_justified_at(
    cnf: Seq<Seq<int>>,
    conset: Set<int>,
    k: Set<int>,
    s: SolveStep,
) -> bool {
    &&& lit_set(s.mus_lits@).subset_of(conset)
    &&& forall|i: int|
        0 <= i < s.sat_lits@.len() ==> !k.contains(#[trigger] s.sat_lits@[i] as int)
            && !satisfiable(cnf, k.union(lit_set(s.mus_lits@)).insert(-(s.sat_lits@[i] as int)))
}

/// A step justified against some known set reached between two states of a
/// run: the set lies between the run's first and last known sets.
pub open spec fn step_justified(
    cnf: Seq<Seq<int>>,
    conset: Set<int>,
    k0: Set<int>,
    kf: Set<int>,
    s: SolveStep,
) -> bool {
    exists|k: Set<int>|
        k0.subset_of(k) && k.subset_of(kf) && #[trigger] step_justified_at(cnf, conset, k, s)
}

/// A stored first context of a justified dictionary entry is itself a
/// justified context: it speaks about exactly its key.
proof fn lemma_dict_first_context_justified(
    solver: &PuzzleSolver,
    d: Map<int, Seq<(Seq<i32>, Seq<i32>)>>,
    key: int,
    mc: MusContext,
    view: Seq<(Seq<i32>, Seq<i32>)>,
)
    requires
        solver.dict_justified(d),
        d.dom().contains(key),
        d[key] == view,
        view.len() > 0,
        view[0].0 == mc.lits@,
        view[0].1 == mc.mus@,
    ensures
        solver.mc_justified(mc),
        valid_lits(lit_seq(mc.mus@)),
        valid_lits(lit_seq(mc.lits@)),
{
    assert(lit_set(mc.lits@) =~= Set::<int>::empty().insert(key));
    assert forall|i: int| 0 <= i < mc.lits@.len() implies !solver.known_set().contains(
        #[trigger] mc.lits@[i] as int,
    ) && !satisfiable(
        solver.cnfv(),
        solver.known_set().union(lit_set(mc.mus@)).insert(-(mc.lits@[i] as int)),
    ) && crate::cnf::valid_lit(mc.lits@[i] as int) by {
        crate::cnf::lemma_lit_set_contains(mc.lits@, i);
        assert(mc.lits@[i] as int == key);
        assert(solver.known_set().union(lit_set(mc.mus@)).insert(-(mc.lits@[i] as int))
            =~= solver.known_set().insert(-key).union(lit_set(mc.mus@)));
    }
    assert forall|i: int| 0 <= i < lit_seq(mc.lits@).len() implies crate::cnf::valid_lit(
        #[trigger] lit_seq(mc.lits@)[i],
    ) by {
        assert(lit_seq(mc.lits@)[i] == mc.lits@[i] as int);
    }
}

/// Merging justified contexts gives justified contexts: every merged
/// literal is proved by the shared MUS through the input context it came
/// from.
proof fn lemma_merged_all_justified(
    solver: &PuzzleSolver,
    muses: Seq<MusContext>,
    merged: Seq<MusContext>,
)
    requires
        crate::musdict::merge_post(muses, merged),
        forall|k: int|
            0 <= k < muses.len() ==> solver.mc_justified(#[trigger] muses[k]) && valid_lits(
                lit_seq(muses[k].mus@),
            ) && valid_lits(lit_seq(muses[k].lits@)),
    ensures
        forall|k: int|
            0 <= k < merged.len() ==> solver.mc_justified(#[trigger] merged[k]) && valid_lits(
                lit_seq(merged[k].mus@),
            ) && valid_lits(lit_seq(merged[k].lits@)),
{
    assert forall|k: int| 0 <= k < merged.len() implies solver.mc_justified(#[trigger] merged[k])
        && valid_lits(lit_seq(merged[k].mus@)) && valid_lits(lit_seq(merged[k].lits@)) by {
        // The merged MUS is one of the input MUSes.
        assert(crate::musdict::mus_keys(merged).contains(merged[k].mus@));
        assert(crate::musdict::mus_keys(muses).contains(merged[k].mus@));
        let w = choose|w: int|
            0 <= w < muses.len() && (#[trigger] muses[w]).mus@ == merged[k].mus@;
        assert(valid_lits(lit_seq(merged[k].mus@))) by {
            assert(muses[w].mus@ == merged[k].mus@);
        }
        assert(lit_set(merged[k].mus@).subset_of(solver.consetv())) by {
            assert(muses[w].mus@ == merged[k].mus@);
        }
        assert forall|i: int| 0 <= i < merged[k].lits@.len() implies !solver.known_set().contains(
            #[trigger] merged[k].lits@[i] as int,
        ) && !satisfiable(
            solver.cnfv(),
            solver.known_set().union(lit_set(merged[k].mus@)).insert(
                -(merged[k].lits@[i] as int),
            ),
        ) && crate::cnf::valid_lit(merged[k].lits@[i] as int) by {
            let x = merged[k].lits@[i] as int;
            crate::cnf::lemma_lit_set_contains(merged[k].lits@, i);
            assert(crate::musdict::merged_lits(muses, merged[k].mus@).contains(x));
            crate::musdict::lemma_merged_lits_member(muses, merged[k].mus@, x);
            let src = choose|src: int|
                0 <= src < muses.len() && (#[trigger] muses[src]).mus@ == merged[k].mus@
                    && lit_set(muses[src].lits@).contains(x);
            crate::cnf::lemma_lit_set_equiv(muses[src].lits@, x);
            let q = choose|q: int|
                0 <= q < muses[src].lits@.len() && muses[src].lits@[q] as int == x;
            assert(lit_seq(muses[src].lits@)[q] == muses[src].lits@[q] as int);
        }
        assert forall|i: int| 0 <= i < lit_seq(merged[k].lits@).len() implies crate::cnf::valid_lit(
            #[trigger] lit_seq(merged[k].lits@)[i],
        ) by {
            assert(lit_seq(merged[k].lits@)[i] == merged[k].lits@[i] as int);
        }
    }
}

/// Prefixes chain: a prefix of a prefix is a prefix.
pub proof fn lemma_prefix_trans(a: Seq<i32>, b: Seq<i32>, c: Seq<i32>)
    requires
        a.is_prefix_of(b),
        b.is_prefix_of(c),
    ensures
        a.is_prefix_of(c),
{
    assert forall|k: int| 0 <= k < a.len() implies a[k] == c[k] by {
        assert(a[k] == b[k]);
    }
    assert(a =~= c.subrange(0, a.len() as int));
}

} // verus!
