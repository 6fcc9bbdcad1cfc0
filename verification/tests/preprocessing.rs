use rusmt::assertion_set::{Clause, Literal};
use rusmt::cdcl::{check, search};
use rusmt::preprocess::{
    clause_minimization, find_contradiction, minimize_cur_clauses, propagate_units, remove_unary,
    watch_map,
};
use rusmt::solver::Res;

fn lit(id: usize, value: bool) -> Literal {
    Literal { value, id }
}

fn clause(lits: &[(usize, bool)]) -> Clause {
    Clause::new(lits.iter().map(|&(id, value)| lit(id, value)).collect())
}

fn database(db: &[Vec<(usize, bool)>]) -> Vec<Clause> {
    db.iter().map(|c| clause(c)).collect()
}

fn plain(db: &[Clause]) -> Vec<Vec<(usize, bool)>> {
    db.iter()
        .map(|c| c.literals().iter().map(|l| (l.id, l.value)).collect())
        .collect()
}

#[test]
fn clause_keeps_the_first_of_equal_literals() {
    let c = clause(&[(3, true), (1, false), (3, true), (3, false), (1, false)]);
    assert_eq!(c.literals(), &vec![lit(3, true), lit(1, false), lit(3, false)]);
    assert_eq!(c.len(), 3);
    assert!(c.contains(lit(3, false)));
    assert!(!c.contains(lit(1, true)));
    assert!(clause(&[]).is_empty());
    assert_eq!(Literal::new(4), lit(4, true));
    assert_eq!(Literal::new(4).not(), lit(4, false));
    assert_eq!(Literal::new(4).not().not(), lit(4, true));
}

#[test]
fn contradiction_is_two_clashing_units_or_a_clause_of_a_literal_and_its_negation() {
    assert_eq!(find_contradiction(&database(&[vec![(1, true)], vec![(2, true)], vec![(1, false)]])), Some(Res::UNSAT));
    assert_eq!(find_contradiction(&database(&[vec![(1, true), (1, false)]])), Some(Res::UNSAT));
    assert_eq!(find_contradiction(&database(&[vec![(1, false), (1, true)]])), Some(Res::UNSAT));
    assert_eq!(find_contradiction(&database(&[vec![(1, true), (2, false)], vec![(1, true)], vec![(1, true)]])), None);
    assert_eq!(find_contradiction(&database(&[vec![(1, true), (1, false), (2, true)]])), None);
    assert_eq!(find_contradiction(&[]), None);
}

#[test]
fn unit_propagation_runs_to_the_end() {
    let (res, left, forced) = propagate_units(database(&[
        vec![(1, true)],
        vec![(1, false), (2, true)],
        vec![(2, false), (3, true), (4, true)],
        vec![(1, true), (5, true)],
        vec![(5, true), (6, false), (1, false)],
    ]));
    assert_eq!(res, None);
    assert_eq!(plain(&left), vec![vec![(3, true), (4, true)], vec![(5, true), (6, false)]]);
    assert_eq!(forced, vec![lit(1, true), lit(2, true)]);
}

#[test]
fn unit_propagation_finds_the_contradiction_of_a_literal_and_its_negation() {
    let db = vec![vec![(1, true)], vec![(1, false)]];
    let (res, left) = remove_unary(database(&db));
    assert_eq!(res, Some(Res::UNSAT));
    assert!(left.is_empty());
    assert_eq!(check(database(&db)).0, Res::UNSAT);
    let chain = vec![vec![(1, true)], vec![(1, false), (2, true)], vec![(2, false)]];
    assert_eq!(remove_unary(database(&chain)).0, Some(Res::UNSAT));
}

#[test]
fn a_clause_that_loses_all_its_literals_is_a_contradiction() {
    let db = vec![vec![(1, true)], vec![(2, true)], vec![(1, false), (2, false), (1, false)]];
    let (res, left) = remove_unary(database(&db));
    assert_eq!(res, Some(Res::UNSAT));
    assert!(left.is_empty());
    assert_eq!(remove_unary(vec![clause(&[])]).0, Some(Res::UNSAT));
}

#[test]
fn unit_propagation_twice_is_unit_propagation_once() {
    let db = vec![
        vec![(1, true)],
        vec![(1, false), (2, true), (3, true)],
        vec![(3, false), (4, true), (1, false)],
        vec![(2, false), (4, false), (5, true)],
        vec![(6, true), (1, true)],
    ];
    let (res, once) = remove_unary(database(&db));
    assert_eq!(res, None);
    let (res, twice) = remove_unary(database(&plain(&once)));
    assert_eq!(res, None);
    assert_eq!(plain(&twice), plain(&once));
    let (_, nothing) = remove_unary(database(&[vec![(1, true)], vec![(1, false)]]));
    let (res, still_nothing) = remove_unary(nothing);
    assert_eq!(res, None);
    assert!(still_nothing.is_empty());
}

#[test]
fn unit_propagation_stops_when_no_unit_clause_is_left() {
    let db = vec![vec![(1, true), (1, false), (2, false)], vec![(2, true)]];
    let (res, left) = remove_unary(database(&db));
    assert_eq!(res, None);
    assert_eq!(plain(&left), vec![vec![(1, true), (1, false)]]);
    let (res, model) = check(database(&db));
    assert_eq!(res, Res::SAT);
    assert!(model.contains(&(2, true)));
    // a second run starts by looking for a contradiction and takes the pair for one
    assert_eq!(remove_unary(left).0, Some(Res::UNSAT));
}

#[test]
fn unit_propagation_looks_for_a_contradiction_before_each_further_round() {
    let db = vec![
        vec![(1, true), (1, false), (2, false)],
        vec![(2, true)],
        vec![(4, true), (3, false)],
        vec![(3, true)],
    ];
    assert_eq!(remove_unary(database(&db)).0, Some(Res::UNSAT));
    assert_eq!(search(database(&db)).0, Res::SAT);
}

#[test]
fn a_pair_of_a_literal_and_its_negation_is_taken_for_a_contradiction() {
    let db = vec![vec![(1, true), (1, false)]];
    assert_eq!(remove_unary(database(&db)).0, Some(Res::UNSAT));
    assert_eq!(check(database(&db)).0, Res::UNSAT);
    assert_eq!(search(database(&db)).0, Res::SAT);
}

#[test]
fn watch_map_lists_the_clauses_of_each_literal() {
    let db = database(&[
        vec![(1, true), (2, false)],
        vec![(2, false), (3, true)],
        vec![(1, false), (2, false)],
    ]);
    let watch = watch_map(&db);
    assert_eq!(watch.lookup(lit(2, false)), Some(&vec![0, 1, 2]));
    assert_eq!(watch.lookup(lit(1, true)), Some(&vec![0]));
    assert_eq!(watch.lookup(lit(1, false)), Some(&vec![2]));
    assert_eq!(watch.lookup(lit(2, true)), None);
    assert_eq!(watch.lookup(lit(3, false)), None);
    assert_eq!(watch.lookup(lit(9, true)), None);
}

#[test]
fn self_subsuming_resolution_strikes_literals() {
    let db = database(&[
        vec![(1, true), (2, true), (3, true)],
        vec![(1, false), (2, true)],
        vec![(4, true), (5, true)],
    ]);
    let watch = watch_map(&db);
    let minimal = clause_minimization(db[0].clone(), 0, &db, &watch);
    assert_eq!(minimal.literals(), &vec![lit(2, true), lit(3, true)]);
    let same = clause_minimization(db[2].clone(), 2, &db, &watch);
    assert_eq!(same.literals(), &vec![lit(4, true), lit(5, true)]);
    let all = minimize_cur_clauses(&db, &watch);
    assert_eq!(
        plain(&all),
        vec![vec![(2, true), (3, true)], vec![(1, false), (2, true)], vec![(4, true), (5, true)]]
    );
}

#[test]
fn self_subsuming_resolution_drops_a_clause_without_literals() {
    let db = database(&[
        vec![(1, true), (2, true)],
        vec![(1, false), (2, true)],
        vec![(1, true), (2, false)],
    ]);
    let watch = watch_map(&db);
    let all = minimize_cur_clauses(&db, &watch);
    assert_eq!(plain(&all), vec![vec![(2, true)], vec![(1, true)]]);
    let (res, model) = check(db);
    assert_eq!(res, Res::SAT);
    assert!(model.contains(&(1, true)));
    assert!(model.contains(&(2, true)));
}

#[test]
fn a_clause_does_not_resolve_with_itself() {
    let db = database(&[vec![(1, true), (1, false), (2, true)], vec![(3, true), (4, true)]]);
    let watch = watch_map(&db);
    let all = minimize_cur_clauses(&db, &watch);
    assert_eq!(plain(&all), plain(&db));
}

#[test]
fn preprocessing_can_lose_a_contradiction() {
    let mut db = Vec::new();
    for bits in 0..8 {
        db.push(vec![(1, bits & 1 != 0), (2, bits & 2 != 0), (3, bits & 4 != 0)]);
    }
    assert_eq!(search(database(&db)).0, Res::UNSAT);
    let watch = watch_map(&database(&db));
    assert!(minimize_cur_clauses(&database(&db), &watch).is_empty());
    assert_eq!(check(database(&db)).0, Res::SAT);
}

fn satisfies(model: &[(usize, bool)], db: &[Vec<(usize, bool)>]) -> bool {
    db.iter().all(|c| c.iter().any(|l| model.contains(l)))
}

#[test]
fn preprocessing_can_lose_satisfiability() {
    let db = vec![
        vec![(1, true), (2, true), (3, true)],
        vec![(1, false), (2, true)],
        vec![(1, true), (2, false)],
        vec![(3, false), (4, true)],
        vec![(3, false), (4, false)],
    ];
    let (res, model) = search(database(&db));
    assert_eq!(res, Res::SAT);
    assert!(satisfies(&model, &db));
    let watch = watch_map(&database(&db));
    assert_eq!(
        plain(&minimize_cur_clauses(&database(&db), &watch)),
        vec![
            vec![(3, true)],
            vec![(1, false), (2, true)],
            vec![(1, true), (2, false)],
            vec![(3, false)],
            vec![(3, false)],
        ]
    );
    assert_eq!(check(database(&db)).0, Res::UNSAT);
}

#[test]
fn the_model_can_miss_a_clause_that_lost_all_its_literals() {
    let db = vec![
        vec![(1, true), (2, true), (3, true)],
        vec![(1, false), (2, true)],
        vec![(2, false), (3, true)],
        vec![(3, false), (1, true)],
        vec![(3, false), (4, true)],
        vec![(3, false), (5, true)],
    ];
    let (res, model) = check(database(&db));
    assert_eq!(res, Res::SAT);
    assert!(model.contains(&(1, false)) && model.contains(&(2, false)) && model.contains(&(3, false)));
    assert!(!satisfies(&model, &db));
    assert!(satisfies(&model, &db[1..]));
    let (res, model) = search(database(&db));
    assert_eq!(res, Res::SAT);
    assert!(satisfies(&model, &db));
}

#[test]
fn preprocessing_twice_can_differ_from_preprocessing_once() {
    let db = database(&[
        vec![(1, true), (2, true), (3, true)],
        vec![(1, false), (2, true)],
        vec![(2, false), (3, true)],
    ]);
    let (res, left) = remove_unary(db);
    assert_eq!(res, None);
    let watch = watch_map(&left);
    let once = minimize_cur_clauses(&left, &watch);
    assert_eq!(
        plain(&once),
        vec![vec![(3, true)], vec![(1, false), (2, true)], vec![(2, false), (3, true)]]
    );
    let (res, left) = remove_unary(once);
    assert_eq!(res, None);
    let watch = watch_map(&left);
    let twice = minimize_cur_clauses(&left, &watch);
    assert_eq!(plain(&twice), vec![vec![(1, false), (2, true)]]);
}

#[test]
fn self_subsuming_resolution_twice_can_differ_from_once() {
    let db = database(&[
        vec![(1, true), (2, true), (3, true)],
        vec![(1, false), (2, true), (3, true)],
        vec![(2, false), (3, true), (5, true)],
    ]);
    let watch = watch_map(&db);
    let once = minimize_cur_clauses(&db, &watch);
    assert_eq!(
        plain(&once),
        vec![
            vec![(2, true), (3, true)],
            vec![(2, true), (3, true)],
            vec![(2, false), (3, true), (5, true)]
        ]
    );
    let watch = watch_map(&once);
    let twice = minimize_cur_clauses(&once, &watch);
    assert_eq!(
        plain(&twice),
        vec![vec![(2, true), (3, true)], vec![(2, true), (3, true)], vec![(3, true), (5, true)]]
    );
    let watch = watch_map(&twice);
    let thrice = minimize_cur_clauses(&twice, &watch);
    assert_eq!(plain(&thrice), plain(&twice));
}

#[test]
fn preprocessing_leaves_a_database_with_nothing_to_do_as_it_is() {
    let db = vec![vec![(1, true), (2, true)], vec![(1, false), (2, false)], vec![(2, true), (3, false)]];
    let (res, left) = remove_unary(database(&db));
    assert_eq!(res, None);
    assert_eq!(plain(&left), db);
    let watch = watch_map(&left);
    let kept = minimize_cur_clauses(&left, &watch);
    assert_eq!(plain(&kept), db);
}

#[test]
fn several_strikes_in_one_clause_can_keep_the_models() {
    let db = vec![
        vec![(1, true), (2, true), (3, true)],
        vec![(1, false), (3, true)],
        vec![(2, false), (3, true)],
    ];
    let watch = watch_map(&database(&db));
    let kept = minimize_cur_clauses(&database(&db), &watch);
    assert_eq!(
        plain(&kept),
        vec![vec![(3, true)], vec![(1, false), (3, true)], vec![(2, false), (3, true)]]
    );
    let (res, model) = check(database(&db));
    assert_eq!(res, Res::SAT);
    assert!(satisfies(&model, &db));
    assert_eq!(search(database(&db)).0, Res::SAT);
}

#[test]
fn a_clause_that_holds_a_kept_clause_is_satisfied_by_the_model() {
    let db = vec![
        vec![(1, true), (2, true), (3, true)],
        vec![(1, false), (2, true)],
        vec![(2, false), (3, true)],
        vec![(3, true), (4, false)],
    ];
    let watch = watch_map(&database(&db));
    let kept = minimize_cur_clauses(&database(&db), &watch);
    assert_eq!(
        plain(&kept),
        vec![vec![(3, true)], vec![(1, false), (2, true)], vec![(2, false), (3, true)], vec![(3, true), (4, false)]]
    );
    let (res, model) = check(database(&db));
    assert_eq!(res, Res::SAT);
    assert!(satisfies(&model, &db));
}
