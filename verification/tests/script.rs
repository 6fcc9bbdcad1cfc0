use rand::rngs::StdRng;
use rand::{RngExt, SeedableRng};
use rusmt::assertion_set::{and, equality, implication, or, xor, AssertionSet, Clause, Literal};
use rusmt::constants::{str_to_bool, Logic};
use rusmt::context::{connect, Action, Command, Context, Term};
use rusmt::error::Error;
use rusmt::preprocess::remove_unary;
use rusmt::solver::{Res, SATSolver};
use rusmt::{get_id, IdAllocator};

fn lit(id: usize, value: bool) -> Literal {
    Literal { value, id }
}

fn plain(db: &[Clause]) -> Vec<Vec<(usize, bool)>> {
    db.iter()
        .map(|c| c.literals().iter().map(|l| (l.id, l.value)).collect())
        .collect()
}

fn sym(name: &str) -> Term {
    Term::Symbol(name.to_string())
}

fn app(function: &str, arguments: Vec<Term>) -> Term {
    Term::Application { function: function.to_string(), arguments }
}

fn not(t: Term) -> Term {
    app("not", vec![t])
}

fn assert_term(term: Term) -> Command {
    Command::Assert { term }
}

fn declare(name: &str) -> Command {
    Command::DeclareFun { symbol: name.to_string(), parameters: vec![], sort: "Bool".to_string() }
}

fn set_logic() -> Command {
    Command::SetLogic { symbol: "QF_UF".to_string() }
}

fn script(commands: Vec<Command>) -> Context {
    let mut context = Context::default();
    let mut all = vec![set_logic()];
    all.extend(commands);
    context.process_commands(all).unwrap();
    context
}

fn value_of(context: &Context, model: &[(usize, bool)], name: &str) -> Option<bool> {
    let id = context.lookup(name)?;
    model.iter().find(|(i, _)| *i == id).map(|(_, v)| *v)
}

#[test]
fn single_variable_is_sat() {
    let context = script(vec![declare("p"), assert_term(sym("p")), Command::CheckSat]);
    let (res, model) = context.check_sat();
    assert_eq!(res, Res::SAT);
    assert_eq!(value_of(&context, &model, "p"), Some(true));
    assert_eq!(context.solve(), Res::SAT);
}

#[test]
fn direct_contradiction_is_unsat_by_the_preprocessor() {
    let context = script(vec![declare("p"), assert_term(sym("p")), assert_term(not(sym("p")))]);
    assert_eq!(remove_unary(context.get_clauses()).0, Some(Res::UNSAT));
    assert_eq!(context.solve(), Res::UNSAT);
}

#[test]
fn conjunction_of_a_literal_and_its_negation_is_unsat_by_the_preprocessor() {
    let context = script(vec![assert_term(app("and", vec![sym("x"), not(sym("x"))]))]);
    assert_eq!(
        plain(&context.get_clauses()),
        vec![vec![(2, false), (1, true)], vec![(2, false), (1, false)], vec![(2, true)]]
    );
    assert_eq!(remove_unary(context.get_clauses()).0, Some(Res::UNSAT));
    assert_eq!(context.solve(), Res::UNSAT);
}

#[test]
fn disjunction_of_a_literal_and_its_negation() {
    let context = script(vec![assert_term(app("or", vec![sym("x"), not(sym("x"))]))]);
    assert_eq!(
        plain(&context.get_clauses()),
        vec![vec![(1, true), (1, false), (2, false)], vec![(2, true)]]
    );
    let mut brute = SATSolver::new(context.get_clauses());
    assert_eq!(brute.solve(), Res::SAT);
    let (res, model) = rusmt::cdcl::search(context.get_clauses());
    assert_eq!(res, Res::SAT);
    assert!(model.contains(&(2, true)));
    // unit propagation stops at the pair of x and its negation, with no unit clause left
    let (verdict, left) = remove_unary(context.get_clauses());
    assert_eq!(verdict, None);
    assert_eq!(plain(&left), vec![vec![(1, true), (1, false)]]);
    assert_eq!(context.solve(), Res::SAT);
}

#[test]
fn implication_chain_is_unsat() {
    let context = script(vec![
        assert_term(app("=>", vec![sym("a"), sym("b")])),
        assert_term(app("=>", vec![sym("b"), sym("c")])),
        assert_term(sym("a")),
        assert_term(not(sym("c"))),
        Command::CheckSat,
    ]);
    assert_eq!(context.solve(), Res::UNSAT);
    assert_eq!(rusmt::cdcl::search(context.get_clauses()).0, Res::UNSAT);
}

#[test]
fn parity_cycle_of_three_variables_is_unsat() {
    let context = script(vec![
        assert_term(app("xor", vec![sym("a"), sym("b")])),
        assert_term(app("xor", vec![sym("b"), sym("c")])),
        assert_term(app("xor", vec![sym("a"), sym("c")])),
    ]);
    assert_eq!(context.solve(), Res::UNSAT);
    assert_eq!(rusmt::cdcl::search(context.get_clauses()).0, Res::UNSAT);
    let mut brute = SATSolver::new(context.get_clauses());
    assert_eq!(brute.solve(), Res::UNSAT);
}

#[test]
fn satisfiable_disjunctions_have_the_model_of_both() {
    let context = script(vec![
        assert_term(app("or", vec![sym("a"), sym("b")])),
        assert_term(app("or", vec![not(sym("a")), sym("b")])),
        assert_term(app("or", vec![sym("a"), not(sym("b"))])),
    ]);
    let (res, model) = context.check_sat();
    assert_eq!(res, Res::SAT);
    assert_eq!(value_of(&context, &model, "a"), Some(true));
    assert_eq!(value_of(&context, &model, "b"), Some(true));
}

#[test]
fn random_three_sat_at_ratio_three() {
    let variables = 2000;
    let clauses = 6000;
    let mut rng = StdRng::seed_from_u64(2024);
    let mut commands = vec![Command::SetOption {
        keyword: "print-success".to_string(),
        value: Some("false".to_string()),
    }];
    for i in 0..variables {
        commands.push(declare(&format!("p{}", i)));
    }
    let mut chosen = Vec::new();
    for _ in 0..clauses {
        let mut terms = Vec::new();
        let mut picks = Vec::new();
        for _ in 0..3 {
            let v = rng.random_range(0..variables);
            let positive = rng.random_bool(0.5);
            picks.push((v, positive));
            let name = sym(&format!("p{}", v));
            terms.push(if positive { name } else { not(name) });
        }
        chosen.push(picks);
        let c = terms.pop().unwrap();
        let b = terms.pop().unwrap();
        let a = terms.pop().unwrap();
        commands.push(assert_term(app("or", vec![a, app("or", vec![b, c])])));
    }
    commands.push(Command::CheckSat);
    commands.push(Command::Exit);
    let context = script(commands);
    let (res, model) = context.check_sat();
    assert_eq!(res, Res::SAT);
    for picks in &chosen {
        assert!(picks.iter().any(|(v, positive)| {
            value_of(&context, &model, &format!("p{}", v)) == Some(*positive)
        }));
    }
    assert_eq!(rusmt::cdcl::search(context.get_clauses()).0, Res::SAT);
}

#[test]
fn gates_emit_their_clauses() {
    let mut ids = IdAllocator::resume(10);
    let mut clauses = Vec::new();
    let a = lit(1, true);
    let b = lit(2, false);
    assert_eq!(and(vec![a, b], &mut clauses, &mut ids), Ok(lit(10, true)));
    assert_eq!(or(vec![a, b], &mut clauses, &mut ids), Ok(lit(11, true)));
    assert_eq!(implication(vec![a, b], &mut clauses, &mut ids), Ok(lit(12, true)));
    assert_eq!(
        plain(&clauses),
        vec![
            vec![(10, false), (1, true)],
            vec![(10, false), (2, false)],
            vec![(1, true), (2, false), (11, false)],
            vec![(12, false), (1, false), (2, false)],
        ]
    );
    let mut clauses = Vec::new();
    assert_eq!(equality(vec![a, b], &mut clauses, &mut ids), Ok(lit(15, true)));
    assert_eq!(
        plain(&clauses),
        vec![
            vec![(13, false), (2, true), (1, true)],
            vec![(14, false), (1, false), (2, false)],
            vec![(15, false), (14, true)],
            vec![(15, false), (13, true)],
        ]
    );
    let mut clauses = Vec::new();
    assert_eq!(xor(vec![a, b], &mut clauses, &mut ids), Ok(lit(18, true)));
    assert_eq!(
        plain(&clauses),
        vec![
            vec![(16, false), (2, true), (1, false)],
            vec![(17, false), (1, true), (2, false)],
            vec![(18, false), (17, true)],
            vec![(18, false), (16, true)],
        ]
    );
    let mut clauses = Vec::new();
    assert_eq!(connect("not", vec![a], &mut clauses, &mut ids), Ok(lit(1, false)));
    assert!(clauses.is_empty());
    assert_eq!(get_id(&mut ids), Ok(19));
}

#[test]
fn identifiers_start_at_one_and_run_out() {
    let mut ids = IdAllocator::new();
    assert_eq!(get_id(&mut ids), Ok(1));
    assert_eq!(ids.get_id(), Ok(2));
    let mut last = IdAllocator::resume(usize::MAX);
    assert!(last.has(1));
    assert!(!last.has(2));
    assert_eq!(last.get_id(), Ok(usize::MAX));
    assert_eq!(last.get_id(), Err(Error::IdExhausted));
    assert_eq!(last.get_id(), Err(Error::IdExhausted));
    let mut clauses = Vec::new();
    assert_eq!(and(vec![], &mut clauses, &mut last), Err(Error::IdExhausted));
    let mut two = IdAllocator::resume(usize::MAX - 1);
    assert_eq!(
        equality(vec![lit(1, true), lit(2, true)], &mut clauses, &mut two),
        Err(Error::IdExhausted)
    );
    assert!(clauses.is_empty());
    assert_eq!(two.get_id(), Ok(usize::MAX - 1));
}

#[test]
fn wrong_arity_and_unknown_connectives_are_errors() {
    let mut context = Context::default();
    context.process_command(set_logic()).unwrap();
    assert_eq!(
        context.process_command(assert_term(app("and", vec![sym("a")]))).unwrap_err(),
        Error::Arity
    );
    assert_eq!(
        context.process_command(assert_term(app("not", vec![sym("a"), sym("b")]))).unwrap_err(),
        Error::Arity
    );
    assert_eq!(
        context.process_command(assert_term(app("or", vec![sym("a"), sym("b"), sym("c")]))).unwrap_err(),
        Error::Arity
    );
    assert_eq!(
        context.process_command(assert_term(app("ite", vec![sym("a"), sym("b")]))).unwrap_err(),
        Error::UnsupportedConnective
    );
    assert_eq!(
        context.process_command(assert_term(Term::Other)).unwrap_err(),
        Error::UnsupportedConnective
    );
    let mut clauses = Vec::new();
    let mut ids = IdAllocator::new();
    assert_eq!(implication(vec![lit(1, true)], &mut clauses, &mut ids), Err(Error::Arity));
    assert!(context.get_clauses().is_empty());
}

#[test]
fn commands_need_a_logic_and_take_one_only() {
    let mut context = Context::default();
    assert!(context.no_logic());
    assert_eq!(context.process_command(assert_term(sym("a"))).unwrap_err(), Error::NoLogic);
    assert_eq!(context.process_command(Command::Push { level: 1 }).unwrap_err(), Error::NoLogic);
    assert_eq!(context.process_command(Command::Pop { level: 0 }).unwrap_err(), Error::NoLogic);
    assert_eq!(
        context.process_command(Command::SetLogic { symbol: "QF_BV".to_string() }).unwrap_err(),
        Error::ParseError
    );
    assert!(matches!(context.process_command(set_logic()), Ok(Action::Nothing)));
    assert!(!context.no_logic());
    assert_eq!(context.process_command(set_logic()).unwrap_err(), Error::DoubleLogic);
    assert_eq!(
        context.process_command(Command::SetLogic { symbol: "QF_LIA".to_string() }).unwrap_err(),
        Error::DoubleLogic
    );
    assert!(Logic::recognizes("QF_LIA"));
    assert!(!Logic::recognizes("QF_LRA"));
    assert_eq!(Logic::new("QF_UF"), Logic::QfUf);
    assert_eq!(Logic::new("QF_LIA"), Logic::QfLia);
    assert!(str_to_bool("true"));
    assert!(!str_to_bool("false"));
}

#[test]
fn frames_are_pushed_and_popped() {
    let mut context = script(vec![assert_term(sym("a"))]);
    context.process_command(Command::Push { level: 2 }).unwrap();
    context.process_command(assert_term(sym("b"))).unwrap();
    context.process_command(assert_term(not(sym("a")))).unwrap();
    assert_eq!(context.lookup("a"), Some(1));
    assert_eq!(context.lookup("b"), Some(2));
    assert_eq!(
        plain(&context.get_clauses()),
        vec![vec![(1, true)], vec![(2, true)], vec![(1, false)]]
    );
    assert_eq!(context.solve(), Res::UNSAT);
    assert_eq!(context.process_command(Command::Pop { level: 3 }).unwrap_err(), Error::PopUnderflow);
    context.process_command(Command::Pop { level: 1 }).unwrap();
    assert_eq!(context.lookup("b"), None);
    assert_eq!(plain(&context.get_clauses()), vec![vec![(1, true)]]);
    assert_eq!(context.solve(), Res::SAT);
    context.process_command(Command::Pop { level: 1 }).unwrap();
    assert_eq!(context.process_command(Command::Pop { level: 1 }).unwrap_err(), Error::PopUnderflow);
    context.process_command(Command::Pop { level: 0 }).unwrap();
    context.process_command(assert_term(sym("b"))).unwrap();
    assert_eq!(context.lookup("b"), Some(3));
}

#[test]
fn a_frame_takes_a_name_and_an_identifier_once() {
    let mut frame = AssertionSet::default();
    assert_eq!(frame.set_id("p".to_string(), 1), Ok(()));
    assert_eq!(frame.set_id("p".to_string(), 2), Err(Error::DuplicateSymbol));
    assert_eq!(frame.set_id("q".to_string(), 1), Err(Error::DuplicateSymbol));
    assert_eq!(frame.set_id("q".to_string(), 2), Ok(()));
    assert_eq!(frame.get_id("q"), Some(2));
    assert_eq!(frame.get_id("r"), None);
    assert!(frame.holds_id(1) && frame.holds_id(2));
    assert!(!frame.holds_id(3));
    frame.add_uninterpreted_function(2, vec![], "Bool".to_string());
    frame.add_clauses(vec![Clause::new(vec![lit(1, true)])]);
    frame.add_clauses(vec![Clause::new(vec![lit(2, false)])]);
    assert_eq!(plain(frame.get_clauses()), vec![vec![(1, true)], vec![(2, false)]]);
}

#[test]
fn the_script_ends_at_exit_and_reports_what_to_do() {
    let mut context = Context::default();
    let actions = context
        .process_commands(vec![
            Command::SetOption { keyword: "produce-models".to_string(), value: Some("true".to_string()) },
            set_logic(),
            Command::Echo { message: "hello".to_string() },
            declare("p"),
            Command::Other,
            Command::CheckSat,
            Command::Exit,
            assert_term(sym("q")),
            Command::Pop { level: 9 },
        ])
        .unwrap();
    assert_eq!(actions.len(), 7);
    assert!(matches!(actions[0], Action::Nothing));
    assert!(matches!(&actions[2], Action::Print(m) if m == "hello"));
    assert!(matches!(actions[5], Action::Check));
    assert!(matches!(actions[6], Action::Stop));
    assert_eq!(context.lookup("p"), Some(1));
    assert_eq!(context.lookup("q"), None);
    assert!(matches!(context.process_command(assert_term(sym("q"))), Ok(Action::Nothing)));
    assert!(context.get_clauses().is_empty());
}

#[test]
fn options_take_a_boolean() {
    let mut context = Context::default();
    let option = |keyword: &str, value: Option<&str>| Command::SetOption {
        keyword: keyword.to_string(),
        value: value.map(|v| v.to_string()),
    };
    assert!(context.process_command(option("print-success", Some("true"))).is_ok());
    assert!(context.process_command(option("produce-models", Some("false"))).is_ok());
    assert_eq!(context.process_command(option("print-success", Some("yes"))).unwrap_err(), Error::ParseError);
    assert_eq!(context.process_command(option("print-success", None)).unwrap_err(), Error::ParseError);
    assert_eq!(context.process_command(option("timeout", Some("true"))).unwrap_err(), Error::ParseError);
    assert_eq!(
        context.process_commands(vec![set_logic(), option("verbosity", Some("true")), declare("p")]).unwrap_err(),
        Error::ParseError
    );
    assert_eq!(context.lookup("p"), None);
}

#[test]
fn the_compiler_enters_new_names_and_stops_at_the_first_error() {
    let mut context = Context::default();
    let mut clauses = Vec::new();
    let term = app("=>", vec![app("and", vec![sym("a"), sym("b")]), not(app("or", vec![sym("b"), sym("c")]))]);
    assert_eq!(context.parse_term(&term, &mut clauses), Ok(lit(6, true)));
    assert_eq!(
        plain(&clauses),
        vec![
            vec![(3, false), (1, true)],
            vec![(3, false), (2, true)],
            vec![(2, true), (4, true), (5, false)],
            vec![(6, false), (3, false), (5, false)],
        ]
    );
    assert_eq!(context.lookup("c"), Some(4));
    let failing = app("and", vec![sym("d"), app("nand", vec![sym("e"), sym("f")])]);
    assert_eq!(context.parse_term(&failing, &mut clauses), Err(Error::UnsupportedConnective));
    assert_eq!(context.lookup("d"), Some(7));
    assert_eq!(context.lookup("f"), Some(9));
    assert_eq!(clauses.len(), 4);
    assert_eq!(context.get_symbol_id("g"), Ok(10));
    assert_eq!(context.get_symbol_id("a"), Ok(1));
}

fn names(term: &Term, out: &mut Vec<String>) {
    match term {
        Term::Symbol(name) => {
            if !out.contains(name) {
                out.push(name.clone());
            }
        }
        Term::Application { arguments, .. } => arguments.iter().for_each(|a| names(a, out)),
        Term::Other => {}
    }
}

fn holds(term: &Term, names: &[String], values: &[bool]) -> bool {
    match term {
        Term::Symbol(name) => values[names.iter().position(|n| n == name).unwrap()],
        Term::Application { function, arguments } => {
            let v: Vec<bool> = arguments.iter().map(|a| holds(a, names, values)).collect();
            match function.as_str() {
                "not" => !v[0],
                "and" => v[0] && v[1],
                "or" => v[0] || v[1],
                "=>" => !v[0] || v[1],
                "=" => v[0] == v[1],
                "xor" => v[0] != v[1],
                _ => false,
            }
        }
        Term::Other => false,
    }
}

fn can_hold(term: &Term) -> bool {
    let mut all = Vec::new();
    names(term, &mut all);
    (0..1usize << all.len()).any(|bits| {
        let values: Vec<bool> = (0..all.len()).map(|i| bits >> i & 1 == 1).collect();
        holds(term, &all, &values)
    })
}

fn cnf_can_hold(term: Term) -> bool {
    let context = script(vec![assert_term(term)]);
    rusmt::cdcl::search(context.get_clauses()).0 == Res::SAT
}

fn copy(term: &Term) -> Term {
    match term {
        Term::Symbol(name) => sym(name),
        Term::Application { function, arguments } => app(function, arguments.iter().map(copy).collect()),
        Term::Other => Term::Other,
    }
}

#[test]
fn positive_terms_and_their_clauses_are_satisfiable_together() {
    let terms = vec![
        sym("a"),
        not(sym("a")),
        app("and", vec![sym("a"), not(sym("a"))]),
        app("and", vec![app("or", vec![sym("a"), sym("b")]), app("and", vec![not(sym("a")), not(sym("b"))])]),
        app("=>", vec![not(sym("a")), app("or", vec![sym("a"), sym("b")])]),
        app("and", vec![app("=", vec![sym("a"), not(sym("b"))]), app("xor", vec![sym("a"), sym("b")])]),
        app("and", vec![app("=", vec![sym("a"), sym("b")]), app("xor", vec![sym("a"), sym("b")])]),
        app("and", vec![sym("a"), app("and", vec![app("=>", vec![sym("a"), sym("b")]), not(sym("b"))])]),
        app("or", vec![app("and", vec![sym("a"), not(sym("a"))]), app("xor", vec![not(sym("c")), sym("c")])]),
    ];
    for term in &terms {
        assert_eq!(cnf_can_hold(copy(term)), can_hold(term), "{:?}", term);
    }
}

#[test]
fn terms_with_connectives_under_negation_and_left_of_an_implication() {
    let left = not(app("or", vec![sym("a"), sym("b")]));
    let context = script(vec![assert_term(app("=>", vec![copy(&left), sym("c")]))]);
    assert_eq!(
        plain(&context.get_clauses()),
        vec![
            vec![(1, true), (2, true), (3, false)],
            vec![(5, false), (3, true), (4, true)],
            vec![(5, true)]
        ]
    );
    let none_of = |names: &[&str]| {
        names.iter().fold(sym("t"), |all, n| app("and", vec![all, not(sym(n))]))
    };
    let terms = vec![
        app("=>", vec![copy(&left), sym("c")]),
        app("and", vec![app("=>", vec![copy(&left), sym("c")]), none_of(&["a", "b", "c"])]),
        app("and", vec![app("=>", vec![copy(&left), sym("c")]), none_of(&["a", "b"])]),
        not(not(app("and", vec![sym("a"), sym("b")]))),
        app("and", vec![not(not(app("and", vec![sym("a"), sym("b")]))), not(sym("a"))]),
        not(not(app("and", vec![sym("a"), not(sym("a"))]))),
        app("=>", vec![not(app("and", vec![sym("a"), not(sym("a"))])), app("and", vec![sym("b"), not(sym("b"))])]),
        app("=>", vec![not(app("and", vec![sym("a"), not(sym("a"))])), sym("b")]),
        not(not(not(not(app("xor", vec![sym("a"), sym("a")]))))),
    ];
    for term in &terms {
        assert_eq!(cnf_can_hold(copy(term)), can_hold(term), "{:?}", term);
    }
    assert!(!can_hold(&terms[1]) && can_hold(&terms[2]) && !can_hold(&terms[4]) && !can_hold(&terms[6]));
}

#[test]
fn a_term_that_can_hold_has_clauses_that_can_hold() {
    let terms = vec![
        not(app("and", vec![sym("a"), sym("b")])),
        app("=", vec![app("and", vec![sym("a"), sym("b")]), app("or", vec![sym("a"), sym("c")])]),
        app("=>", vec![app("or", vec![sym("a"), sym("b")]), sym("c")]),
        app("xor", vec![app("=>", vec![sym("a"), sym("b")]), not(sym("a"))]),
    ];
    for term in &terms {
        assert!(can_hold(term));
        assert!(cnf_can_hold(copy(term)), "{:?}", term);
    }
}

#[test]
fn the_clauses_of_a_negated_connective_can_hold_where_the_term_cannot() {
    let term = not(app("or", vec![sym("a"), not(sym("a"))]));
    assert!(!can_hold(&term));
    assert!(cnf_can_hold(copy(&term)));
    let context = script(vec![assert_term(term)]);
    assert_eq!(
        plain(&context.get_clauses()),
        vec![vec![(1, true), (1, false), (2, false)], vec![(2, false)]]
    );
    assert_eq!(context.solve(), Res::SAT);
}
