use demystify::model::{PuzLit, PuzVar, VarValPair};
use demystify::musdict::MusContext;
use demystify::planner::{PlannerConfig, PuzzlePlanner};
use demystify::puzzle::PuzzleParse;
use demystify::rng::rng_from_seed;
use demystify::solver::{MusConfig, PuzzleSolver, SolverConfig, Strategy};

// A one-variable puzzle: x ranges over {1, 2}; the constraint literal 3
// switches on a constraint forcing x = 1.  The clauses say x takes exactly
// one value and that the constraint implies x = 1.
fn tiny_puzzle() -> PuzzleParse {
    let mut parse = PuzzleParse::new_from_eprime(
        vec!["x".to_string()],
        Vec::new(),
        vec![("c".to_string(), "always {{ index }}".to_string())],
        Vec::new(),
        Vec::new(),
        Some("Tiny".to_string()),
    );
    parse.cnf = vec![vec![1, 2], vec![-1, -2], vec![-3, 1]];
    let x = PuzVar::new("x", vec![]);
    let c = PuzVar::new("c", vec![]);
    parse.litmap = vec![
        (PuzLit::new_eq(VarValPair::new(&x, 1)), 1),
        (PuzLit::new_eq(VarValPair::new(&x, 2)), 2),
        (PuzLit::new_eq(VarValPair::new(&c, 1)), 3),
        (PuzLit::new_eq(VarValPair::new(&c, 0)), -3),
    ];
    parse.finalise().unwrap();
    parse
}

#[test]
fn finalise_builds_the_bijection() {
    let parse = tiny_puzzle();
    let x = PuzVar::new("x", vec![]);
    // Both polarities exist and are negations of each other.
    let pos = PuzLit::new_eq(VarValPair::new(&x, 1));
    let neg = pos.neg();
    assert_eq!(parse.puzlit_to_lit(&pos), Some(1));
    assert_eq!(parse.puzlit_to_lit(&neg), Some(-1));
    assert_eq!(parse.conset_lits, vec![3]);
    assert!(parse.lit_is_con(3));
    assert!(!parse.lit_is_con(1));
    assert!(parse.lit_is_var(1));
    assert!(parse.lit_is_var(-2));
    assert_eq!(parse.lit_to_con(3).unwrap(), "always []");
    // The constraint's scope reaches the decision variable.
    let scope = parse.constraint_scope("always []");
    assert!(scope.iter().any(|p| p.var().name() == "x"));
}

#[test]
fn provable_literals_follow_from_the_constraint() {
    let parse = tiny_puzzle();
    let mut solver = PuzzleSolver::new(parse);
    let provable = solver.get_provable_varlits().unwrap();
    assert_eq!(provable, vec![1, -2]);
    assert_eq!(solver.get_known_lits(), &Vec::<i32>::new());

    // No literal follows from the fixed facts alone.
    assert!(!solver.check_var_mus_size_0(1));
    // The constraint alone is a MUS of size one for x = 1.
    let tiny = solver.get_var_mus_size_1(1, None).unwrap();
    assert_eq!(tiny, vec![vec![3]]);
    let quick = solver.get_var_mus_quick(1, None).unwrap();
    assert_eq!(quick, Some(vec![3]));
    let quick_limit = solver.get_var_mus_quick(1, Some(100)).unwrap();
    assert_eq!(quick_limit, Some(vec![3]));
    let cake = solver.get_var_mus_cake(1, 3).unwrap();
    assert_eq!(cake, Some(vec![3]));
    let slice = solver.get_var_mus_slice(1, Some(3)).unwrap();
    assert_eq!(slice, Some(vec![3]));

    // The negation of a provable literal has no MUS.
    assert_eq!(solver.get_var_mus_quick(-1, None).unwrap(), None);
    assert!(solver.get_var_mus_size_1(-1, None).unwrap().is_empty());
}

#[test]
fn adding_known_literals_is_monotone_and_idempotent() {
    let parse = tiny_puzzle();
    let mut solver = PuzzleSolver::new(parse);
    let _ = solver.get_provable_varlits().unwrap();
    solver.add_known_lit(1);
    let after_one = solver.get_known_lits().clone();
    // x = 1 also rules out x = 2.
    assert!(after_one.contains(&1));
    assert!(after_one.contains(&-2));
    // Adding the same literal again changes nothing.
    solver.add_known_lit(1);
    assert_eq!(solver.get_known_lits(), &after_one);
    // The provable cache no longer offers the known literal.
    let provable = solver.get_provable_varlits().unwrap();
    assert!(!provable.contains(&1));
}

#[test]
fn mus_expansion_covers_all_its_deductions() {
    let parse = tiny_puzzle();
    let mut solver = PuzzleSolver::new(parse);
    let _ = solver.get_provable_varlits().unwrap();
    let mc = MusContext::new(1, &vec![3]);
    let expanded = solver.get_all_lits_solved_by_mus(&mc).unwrap();
    assert_eq!(expanded.mus, vec![3]);
    assert_eq!(expanded.lits, vec![1, -2]);
    // Every expanded literal is separately proved by the same MUS.
    let provable = solver
        .get_varlits_provable_by_mus(&expanded.lits, &mc)
        .unwrap();
    assert_eq!(provable, expanded.lits);
}

#[test]
fn small_mus_search_finds_the_constraint() {
    let parse = tiny_puzzle();
    let mut solver = PuzzleSolver::new(parse);
    let provable = solver.get_provable_varlits().unwrap();
    let md = solver.get_many_vars_small_mus_quick(&provable, &MusConfig::new_default(), None);
    assert_eq!(md.min(), Some(1));
    assert_eq!(md.min_lit(1), Some(1));
    let md2 = solver.get_many_vars_mus_first(&provable, Some(md));
    assert_eq!(md2.min(), Some(1));
}

#[test]
fn planner_solves_the_puzzle_in_one_step() {
    let parse = tiny_puzzle();
    let solver = PuzzleSolver::new(parse);
    let mut planner = PuzzlePlanner::new(solver).unwrap();
    let steps = planner.quick_solve().unwrap();
    assert_eq!(steps.len(), 1);
    assert_eq!(steps[0].len(), 1);
    assert!(!steps[0][0].lits.is_empty());
    assert_eq!(steps[0][0].constraints, vec!["always []".to_string()]);
    // Everything is decided afterwards.
    assert!(planner.get_provable_varlits().unwrap().is_empty());
}

#[test]
fn solvability_reports_a_unique_solution() {
    let parse = tiny_puzzle();
    let solver = PuzzleSolver::new(parse);
    let mut planner = PuzzlePlanner::new(solver).unwrap();
    assert_eq!(planner.check_solvability().unwrap(), Some(0));
}

#[test]
fn filtering_refuses_unknown_names() {
    let mut parse = tiny_puzzle();
    assert!(parse.filter_out_constraint("nobody").is_err());
    assert_eq!(parse.conset_lits, vec![3]);
}

#[test]
fn solvability_reports_open_literals_without_constraints() {
    let mut parse = tiny_puzzle();
    // Switch the only constraint off: nothing is deducible, and both values
    // of x stay open.
    parse.filter_out_constraint("c").unwrap();
    let solver = PuzzleSolver::new(parse);
    let mut planner = PuzzlePlanner::new(solver).unwrap();
    assert_eq!(planner.check_solvability().unwrap(), Some(4));
}

#[test]
fn only_assignments_mode_restricts_candidates() {
    let parse = tiny_puzzle();
    let mut solver =
        PuzzleSolver::new_with_config(parse, SolverConfig { only_assignments: true });
    // Only denials are probed, so only the assignment x = 1 is reported.
    let provable = solver.get_provable_varlits().unwrap();
    assert_eq!(provable, vec![1]);
}

#[test]
fn random_solutions_respect_the_constraints() {
    let parse = tiny_puzzle();
    let mut solver = PuzzleSolver::new(parse);
    let mut rng = rng_from_seed(2);
    let sol = solver.random_solution(&mut rng, None).unwrap();
    // The constraint set is assumed, so x = 1 must be part of any walk.
    assert!(sol.contains(&1) || sol.contains(&-2));
    assert!(!sol.contains(&2));
    let mut rng2 = rng_from_seed(7);
    let sol2 = solver.random_solution(&mut rng2, Some(0)).unwrap();
    assert!(!sol2.is_empty());
}

#[test]
fn strategy_default_is_dynamic() {
    assert_eq!(Strategy::default_strategy(), Strategy::Dynamic);
    let cfg = MusConfig::new_with_repeats(5);
    assert_eq!(cfg.repeats, 5);
    let pc = PlannerConfig::new_default();
    assert_eq!(pc.merge_small_threshold, 1);
    assert_eq!(pc.skip_small_threshold, 0);
}

// A puzzle with two interchangeable constraints, each alone forcing x = 1:
// a minimal subset keeps only one of them.
fn redundant_puzzle() -> PuzzleParse {
    let mut parse = PuzzleParse::new_from_eprime(
        vec!["x".to_string()],
        Vec::new(),
        vec![
            ("c".to_string(), "first".to_string()),
            ("d".to_string(), "second".to_string()),
        ],
        Vec::new(),
        Vec::new(),
        None,
    );
    parse.cnf = vec![vec![1, 2], vec![-1, -2], vec![-3, 1], vec![-4, 1]];
    let x = PuzVar::new("x", vec![]);
    let c = PuzVar::new("c", vec![]);
    let d = PuzVar::new("d", vec![]);
    parse.litmap = vec![
        (PuzLit::new_eq(VarValPair::new(&x, 1)), 1),
        (PuzLit::new_eq(VarValPair::new(&x, 2)), 2),
        (PuzLit::new_eq(VarValPair::new(&c, 1)), 3),
        (PuzLit::new_eq(VarValPair::new(&c, 0)), -3),
        (PuzLit::new_eq(VarValPair::new(&d, 1)), 4),
        (PuzLit::new_eq(VarValPair::new(&d, 0)), -4),
    ];
    parse.finalise().unwrap();
    parse
}

#[test]
fn quick_mus_is_minimal() {
    let parse = redundant_puzzle();
    let mut solver = PuzzleSolver::new(parse);
    // Both constraints force x = 1, but a minimal subset needs only one.
    let mus = solver.get_var_mus_quick(1, None).unwrap().unwrap();
    assert_eq!(mus.len(), 1);
    assert!(mus == vec![3] || mus == vec![4]);
}

#[test]
fn parsing_the_same_input_twice_gives_the_same_model() {
    let a = tiny_puzzle();
    let b = tiny_puzzle();
    assert_eq!(a.litmap, b.litmap);
    assert_eq!(a.conset_lits, b.conset_lits);
    assert_eq!(a.varset_lits, b.varset_lits);
    assert_eq!(a.varset_lits_neg, b.varset_lits_neg);
    assert_eq!(a.conset, b.conset);
    assert_eq!(a.domainmap, b.domainmap);
    assert_eq!(a.reveal_map, b.reveal_map);
    assert_eq!(a.eprime.kind, b.eprime.kind);
}

// A puzzle with a reveal relation: knowing x = v uncovers s[v].
fn reveal_puzzle() -> PuzzleParse {
    let mut parse = PuzzleParse::new_from_eprime(
        vec!["x".to_string()],
        Vec::new(),
        vec![("c".to_string(), "force".to_string())],
        vec![("x".to_string(), "s".to_string())],
        Vec::new(),
        None,
    );
    parse.cnf = vec![vec![1, 2], vec![-1, -2], vec![-3, 1]];
    let x = PuzVar::new("x", vec![]);
    let c = PuzVar::new("c", vec![]);
    let s1 = PuzVar::new("s", vec![1]);
    let s2 = PuzVar::new("s", vec![2]);
    parse.litmap = vec![
        (PuzLit::new_eq(VarValPair::new(&x, 1)), 1),
        (PuzLit::new_eq(VarValPair::new(&x, 2)), 2),
        (PuzLit::new_eq(VarValPair::new(&c, 1)), 3),
        (PuzLit::new_eq(VarValPair::new(&c, 0)), -3),
        (PuzLit::new_eq(VarValPair::new(&s1, 1)), 5),
        (PuzLit::new_eq(VarValPair::new(&s2, 1)), 6),
    ];
    parse.finalise().unwrap();
    parse
}

#[test]
fn reveal_relations_are_wired_and_followed() {
    let parse = reveal_puzzle();
    assert!(parse.has_facts());
    assert_eq!(parse.reveal_map, vec![(1, 5), (2, 6)]);

    let mut solver = PuzzleSolver::new(parse);
    let _ = solver.get_provable_varlits().unwrap();
    solver.add_known_lit(1);
    // Learning x = 1 excludes x = 2 and uncovers s[1].
    let known = solver.get_known_lits();
    assert!(known.contains(&1));
    assert!(known.contains(&-2));
    assert!(known.contains(&5));
    assert!(!known.contains(&6));
}

#[test]
fn draining_includes_reveal_consequences() {
    let parse = reveal_puzzle();
    let solver = PuzzleSolver::new(parse);
    let mut planner = PuzzlePlanner::new(solver).unwrap();
    let all = planner.get_provable_varlits_including_reveals().unwrap();
    assert!(all.contains(&1));
    assert!(all.contains(&-2));
    let known = planner.get_all_known_lits();
    assert!(known.contains(&5));
}
