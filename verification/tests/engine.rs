use rusmt::assertion_set::{Clause, Literal};
use rusmt::cdcl::{check, search, CDCLSolver};
use rusmt::solver::{rename, Res, SATSolver};

fn lit(id: usize, value: bool) -> Literal {
    Literal { value, id }
}

fn clause(lits: &[(usize, bool)]) -> Clause {
    Clause::new(lits.iter().map(|&(id, value)| lit(id, value)).collect())
}

fn database(db: &[Vec<(usize, bool)>]) -> Vec<Clause> {
    db.iter().map(|c| clause(c)).collect()
}

fn satisfies(model: &[(usize, bool)], db: &[Vec<(usize, bool)>]) -> bool {
    db.iter().all(|c| c.iter().any(|l| model.contains(l)))
}

fn parity_cycle() -> Vec<Vec<(usize, bool)>> {
    vec![
        vec![(1, true), (2, true)],
        vec![(1, false), (2, false)],
        vec![(2, true), (3, true)],
        vec![(2, false), (3, false)],
        vec![(1, true), (3, true)],
        vec![(1, false), (3, false)],
    ]
}

fn all_sign_patterns() -> Vec<Vec<(usize, bool)>> {
    let mut db = Vec::new();
    for bits in 0..8 {
        db.push(vec![(10, bits & 1 != 0), (20, bits & 2 != 0), (30, bits & 4 != 0)]);
    }
    db
}

#[test]
fn empty_database_is_sat() {
    let mut solver = CDCLSolver::new(vec![]);
    assert_eq!(solver.solve(), Res::SAT);
    assert_eq!(solver.get_assignments(), vec![]);
    assert_eq!(search(vec![]).0, Res::SAT);
    let mut brute = SATSolver::new(vec![]);
    assert_eq!(brute.solve(), Res::SAT);
}

#[test]
fn single_empty_clause_is_unsat() {
    let mut solver = CDCLSolver::new(vec![clause(&[])]);
    assert_eq!(solver.solve(), Res::UNSAT);
    assert_eq!(search(vec![clause(&[])]).0, Res::UNSAT);
}

#[test]
fn exhaustive_solver_checks_the_clauses_when_no_variable_is_left() {
    let mut brute = SATSolver::new(vec![clause(&[])]);
    assert_eq!(brute.get_assignments(), vec![]);
    assert_eq!(brute.solve_i(0), Res::UNSAT);
    assert_eq!(brute.solve(), Res::UNSAT);
    let mut brute = SATSolver::new(database(&[vec![(3, true)], vec![]]));
    assert_eq!(brute.solve(), Res::UNSAT);
    let mut brute = SATSolver::new(database(&[vec![(3, true)]]));
    brute.assignments[0] = Some(false);
    assert_eq!(brute.solve_i(1), Res::UNSAT);
    brute.assignments[0] = Some(true);
    assert_eq!(brute.solve_i(1), Res::SAT);
}

#[test]
fn literal_or_its_negation_is_sat_for_the_search() {
    let db = vec![vec![(7, true), (7, false)]];
    let (res, model) = search(database(&db));
    assert_eq!(res, Res::SAT);
    assert!(satisfies(&model, &db));
    let mut brute = SATSolver::new(database(&db));
    assert_eq!(brute.solve(), Res::SAT);
}

#[test]
fn decision_follows_frequency_then_variable_then_polarity() {
    let db = vec![
        vec![(1, true), (2, true)],
        vec![(1, true), (3, false)],
        vec![(2, true), (3, false)],
        vec![(2, true), (1, false)],
    ];
    let solver = CDCLSolver::unprocessed(database(&db));
    // variables 1, 2, 3 are 0, 1, 2; the positive literal of 2 occurs three times
    assert_eq!(solver.get_next(), Some(lit(1, true)));
    let tie = vec![vec![(1, true), (2, false)], vec![(1, false), (2, true)]];
    let solver = CDCLSolver::unprocessed(database(&tie));
    assert_eq!(solver.get_next(), Some(lit(1, true)));
}

#[test]
fn propagation_assigns_forced_literals_and_reports_the_first_conflict() {
    let db = vec![
        vec![(1, false), (2, true)],
        vec![(2, false), (3, true)],
        vec![(3, false), (4, true)],
    ];
    let mut solver = CDCLSolver::unprocessed(database(&db));
    solver.decide(lit(0, true));
    assert_eq!(solver.propagation(1), None);
    assert!(solver.fully_assign());
    assert_eq!(
        solver.get_assignments(),
        vec![(1, true), (2, true), (3, true), (4, true)]
    );
    let clash = vec![
        vec![(1, false), (2, true)],
        vec![(1, false), (2, false)],
        vec![(1, true), (2, true)],
    ];
    let mut solver = CDCLSolver::unprocessed(database(&clash));
    solver.decide(lit(0, true));
    assert_eq!(solver.propagation(1), Some(1));
}

#[test]
fn conflict_analysis_finds_the_decisions_and_backjump_flips_the_latest() {
    let db = vec![
        vec![(1, false), (2, false), (3, true)],
        vec![(1, false), (2, false), (3, false)],
        vec![(1, true), (2, true), (4, true)],
    ];
    let mut solver = CDCLSolver::unprocessed(database(&db));
    assert_eq!(solver.decision_level(), 0);
    solver.decide(lit(0, true));
    assert_eq!(solver.decision_level(), 1);
    assert_eq!(solver.propagation(1), None);
    assert_eq!(solver.decision_level(), 1);
    solver.decide(lit(1, true));
    assert_eq!(solver.decision_level(), 2);
    let assigned = solver.get_assignments().len();
    let conflict = solver.propagation(2);
    assert_eq!(conflict, Some(1));
    assert_eq!(solver.decision_level(), 2);
    assert!(solver.get_assignments().len() > assigned);
    let roots = solver.collect_roots(1);
    assert_eq!(roots, vec![1, 0]);
    let before = solver.clauses.len();
    solver.backjump(&roots);
    assert_eq!(solver.decision_level(), 1);
    assert_eq!(solver.clauses.len(), before + 1);
    assert_eq!(
        solver.clauses[before].literals(),
        &vec![lit(1, false), lit(0, false)]
    );
    // back at level one, with variable 1 turned by the learned clause
    assert_eq!(solver.propagation(1), None);
    let model = solver.get_assignments();
    assert!(model.contains(&(1, true)));
    assert!(model.contains(&(2, false)));
}

#[test]
fn search_decides_all_sign_patterns() {
    let db = all_sign_patterns();
    let (res, _) = search(database(&db));
    assert_eq!(res, Res::UNSAT);
    for skip in 0..8 {
        let mut part = db.clone();
        part.remove(skip);
        let (res, model) = search(database(&part));
        assert_eq!(res, Res::SAT);
        assert!(satisfies(&model, &part));
        assert_eq!(model.len(), 3);
    }
}

#[test]
fn search_and_exhaustive_solver_agree() {
    let mut state: u64 = 12345;
    let mut next = |bound: u64| {
        state = state.wrapping_mul(6364136223846793005).wrapping_add(1442695040888963407);
        (state >> 33) % bound
    };
    for _ in 0..300 {
        let variables = 1 + next(7) as usize;
        let clauses = next(24) as usize;
        let mut db = Vec::new();
        for _ in 0..clauses {
            let width = 1 + next(3) as usize;
            let mut c = Vec::new();
            for _ in 0..width {
                c.push((100 + next(variables as u64) as usize, next(2) == 0));
            }
            db.push(c);
        }
        let (res, model) = search(database(&db));
        let mut brute = SATSolver::new(database(&db));
        assert_eq!(res, brute.solve());
        if res == Res::SAT {
            assert!(satisfies(&model, &db));
        }
    }
}

#[test]
fn parity_cycle_is_unsat() {
    let db = parity_cycle();
    let mut solver = CDCLSolver::new(database(&db));
    assert_eq!(solver.solve(), Res::UNSAT);
    assert!(solver.clauses.len() > 6);
    assert_eq!(check(database(&db)).0, Res::UNSAT);
    let mut brute = SATSolver::new(database(&db));
    assert_eq!(brute.solve(), Res::UNSAT);
}

#[test]
fn two_runs_give_the_same_verdict_and_model() {
    let db = vec![
        vec![(3, true), (5, false), (8, true)],
        vec![(3, false), (5, true)],
        vec![(5, false), (8, false)],
        vec![(3, true), (8, true), (9, true)],
        vec![(9, false), (5, true), (3, false)],
    ];
    let first = check(database(&db));
    let second = check(database(&db));
    assert_eq!(first, second);
    assert_eq!(first.0, Res::SAT);
    assert!(satisfies(&first.1, &db));
    assert_eq!(search(database(&db)), search(database(&db)));
}

#[test]
fn a_conflict_without_decisions_behind_it_has_no_roots() {
    let db = vec![vec![(1, true), (2, true)], vec![(1, true), (2, false)], vec![(1, false)]];
    let mut solver = CDCLSolver::unprocessed(database(&db));
    // the unit clause forces variable 0; the first clause then forces variable 1, and the second is false
    assert_eq!(solver.propagation(0), Some(1));
    assert_eq!(solver.collect_roots(1), Vec::<usize>::new());
    assert_eq!(search(database(&db)).0, Res::UNSAT);
}

#[test]
fn a_single_root_sends_the_engine_back_to_level_zero() {
    let db = vec![vec![(1, false), (2, true)], vec![(1, false), (2, false)], vec![(1, true), (3, true)]];
    let mut solver = CDCLSolver::unprocessed(database(&db));
    solver.decide(lit(0, true));
    assert_eq!(solver.propagation(1), Some(1));
    let roots = solver.collect_roots(1);
    assert_eq!(roots, vec![0]);
    solver.backjump(&roots);
    assert_eq!(solver.decision_level(), 0);
    assert_eq!(solver.clauses[3].literals(), &vec![lit(0, false)]);
    assert_eq!(solver.propagation(0), None);
    assert_eq!(solver.get_assignments(), vec![(1, false), (3, true)]);
    assert_eq!(solver.solve(), Res::SAT);
    assert!(satisfies(&solver.get_assignments(), &db));
}

#[test]
fn search_turns_early_decisions_when_later_ones_fail() {
    let first = vec![
        vec![(2, false), (1, true)],
        vec![(3, true), (2, true)],
        vec![(1, true), (2, true)],
        vec![(2, false), (1, false)],
    ];
    let second = vec![
        vec![(3, true), (2, false)],
        vec![(2, true), (3, true)],
        vec![(4, false), (2, true)],
        vec![(4, false), (1, true)],
        vec![(1, true), (3, false)],
        vec![(3, false), (1, false), (4, true)],
    ];
    for db in [first, second] {
        let (res, model) = search(database(&db));
        assert_eq!(res, Res::SAT);
        assert!(satisfies(&model, &db));
        let mut solver = CDCLSolver::unprocessed(database(&db));
        assert_eq!(solver.solve(), Res::SAT);
        assert!(solver.fully_assign());
        assert!(satisfies(&solver.get_assignments(), &db));
    }
}

#[test]
fn a_verdict_stays_on_record() {
    let mut solver = CDCLSolver::new(database(&parity_cycle()));
    assert_eq!(solver.solve(), Res::UNSAT);
    assert_eq!(solver.solve(), Res::UNSAT);
}

#[test]
fn rename_sorts_and_compacts() {
    let (ids, out) = rename(vec![clause(&[(9, true), (4, false)]), clause(&[(4, true), (7, true), (9, false)])]);
    assert_eq!(ids, vec![4, 7, 9]);
    assert_eq!(out[0].literals(), &vec![lit(2, true), lit(0, false)]);
    assert_eq!(out[1].literals(), &vec![lit(0, true), lit(1, true), lit(2, false)]);
}

#[test]
fn rename_and_back_is_the_identity() {
    let db = vec![
        vec![(40, true), (7, false), (1000, true)],
        vec![(7, true)],
        vec![],
        vec![(1000, false), (40, false)],
    ];
    let (ids, out) = rename(database(&db));
    let back: Vec<Vec<(usize, bool)>> = out
        .iter()
        .map(|c| c.literals().iter().map(|l| (ids[l.id], l.value)).collect())
        .collect();
    assert_eq!(back, db);
    assert!(ids.windows(2).all(|w| w[0] < w[1]));
}

#[test]
fn exhaustive_solver_leaves_the_assignment_open() {
    let mut brute = SATSolver::new(database(&[vec![(5, true), (9, false)], vec![(5, false), (9, false)]]));
    assert_eq!(brute.solve(), Res::SAT);
    assert_eq!(brute.get_assignments(), vec![(5, None), (9, None)]);
    assert!(brute.check_clause(&clause(&[(0, true)])));
    brute.assignments[0] = Some(false);
    assert!(!brute.check_clause(&clause(&[(0, true)])));
    assert!(brute.check_clause(&clause(&[(0, true), (1, false)])));
    brute.assignments[0] = None;
    assert_eq!(brute.solve_i(2), Res::SAT);
    assert_eq!(brute.solve_i(0), Res::SAT);
}

#[test]
fn verdicts_are_written_in_lower_case() {
    assert_eq!(Res::SAT.as_ref(), "sat");
    assert_eq!(Res::UNSAT.as_ref(), "unsat");
    assert_eq!(Res::UNSAT.to_string(), "unsat");
}

#[test]
fn literals_and_clauses_are_written_with_a_caret_for_a_negation() {
    assert_eq!(lit(7, true).to_string(), "7");
    assert_eq!(lit(12, false).to_string(), "^12");
    assert_eq!(lit(0, true).to_string(), "0");
    assert_eq!(lit(0, false).to_string(), "^0");
    assert_eq!(lit(10, true).to_string(), "10");
    assert_eq!(lit(usize::MAX, false).to_string(), format!("^{}", usize::MAX));
    assert_eq!(clause(&[(1, true), (2, false), (30, true)]).to_string(), "[1, ^2, 30]");
    assert_eq!(clause(&[(5, false)]).to_string(), "[^5]");
    assert_eq!(clause(&[]).to_string(), "[]");
}
