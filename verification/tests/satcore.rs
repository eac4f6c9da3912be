use demystify::satcore::{budget_step, SatCore, LIMIT_TRIP_THRESHOLD};

fn create_cnf() -> Vec<Vec<i32>> {
    // Two clauses over two variables: (1 or 2) and (1 or not 2).
    vec![vec![1, 2], vec![1, -2]]
}

#[test]
fn test_assumption_solve_solution() {
    let mut solver = SatCore::new(create_cnf());
    let result = solver
        .assumption_solve_solution(&vec![], &vec![2, 3], &vec![1, 2, 3])
        .unwrap();
    assert!(result.is_some());
    let result = solver
        .assumption_solve_solution(&vec![], &vec![1], &vec![1, 2, 3])
        .unwrap();
    assert!(result.is_some());
    let result = solver
        .assumption_solve_solution(&vec![], &vec![-1], &vec![1, 2, 3])
        .unwrap();
    assert!(result.is_none());
}

#[test]
fn test_assumption_solve_core() {
    let mut solver = SatCore::new(create_cnf());
    let result = solver
        .assumption_solve_with_core(&vec![], &vec![2, 3])
        .unwrap();
    assert!(result.is_none());
    let result = solver.assumption_solve_with_core(&vec![], &vec![1]).unwrap();
    assert!(result.is_none());
    let result = solver
        .assumption_solve_with_core(&vec![], &vec![-1])
        .unwrap();
    assert!(result.is_some());
    let core = result.unwrap();
    assert!(core.iter().all(|l| *l == -1));
}

#[test]
fn test_assumption_quick_mus() {
    let mut solver = SatCore::new(create_cnf());
    let result = solver.quick_mus(&vec![], &vec![2, 3], None).unwrap();
    assert!(result.is_none());
    let result = solver.quick_mus(&vec![], &vec![1], None).unwrap();
    assert!(result.is_none());
    let result = solver.quick_mus(&vec![], &vec![-1], None).unwrap();
    assert!(result.is_some());
    assert_eq!(result.unwrap(), vec![-1]);
}

#[test]
fn test_assumption_quick_mus_known() {
    let mut solver = SatCore::new(create_cnf());
    let result = solver.quick_mus(&vec![], &vec![2, 3], None).unwrap();
    assert!(result.is_none());
    let result = solver.quick_mus(&vec![-1], &vec![2, 3], None).unwrap();
    assert_eq!(result, Some(vec![]));
    let result = solver.quick_mus(&vec![], &vec![2, 3], None).unwrap();
    assert!(result.is_none());
}

#[test]
fn budget_grows_tenfold_after_repeated_trips() {
    // Within the threshold, a trip only raises the counter.
    assert_eq!(budget_step(1000, 0, true), (1000, 1));
    assert_eq!(budget_step(1000, 5, true), (1000, 6));
    // At the threshold, the budget multiplies by ten and the counter resets.
    assert_eq!(budget_step(1000, LIMIT_TRIP_THRESHOLD, true), (10000, 0));
    // A solve within budget decays the counter and keeps the budget.
    assert_eq!(budget_step(10000, 3, false), (10000, 2));
    assert_eq!(budget_step(10000, 0, false), (10000, 0));
}

#[test]
fn solve_reports_each_side() {
    let mut solver = SatCore::new(vec![vec![1], vec![-1, 2]]);
    assert_eq!(solver.assumption_solve(&vec![], &vec![2]).unwrap(), true);
    assert_eq!(solver.assumption_solve(&vec![], &vec![-2]).unwrap(), false);
    // Fixing a smaller set than before forces a rebuild, and answers stay
    // consistent afterwards.
    assert_eq!(solver.assumption_solve(&vec![2], &vec![1]).unwrap(), true);
    assert_eq!(solver.assumption_solve(&vec![], &vec![-1]).unwrap(), false);
}
