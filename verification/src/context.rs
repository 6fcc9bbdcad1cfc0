//! The state of a script: the logic, the options, and the stack of
//! assertion frames; and the compiler from Boolean terms to clauses.

use vstd::prelude::*;
use crate::assertion_set::{
    and, and_clauses, equality, equality_clauses, fresh, implication, implication_clause, or,
    or_clause, texts, well_formed, xor, AssertionSet, Clause, Frame, Literal,
};
use crate::cdcl::{check, check_result, checked, reported_true, satisfied_by};
use crate::theorems::{outlives, spares};
use crate::preprocess::unit_run;
use crate::constants::{
    same_text, str_to_bool, Logic, AND, EQUALITY, IMPLICATION, NOT, OR, PRINT_SUCCESS,
    PRODUCE_MODELS, XOR,
};
use crate::error::Error;
use crate::model::formula;
use crate::solver::Res;
use crate::IdAllocator;

verus! {

/// A Boolean term of the command language.
#[derive(Debug)]
pub enum Term {
    /// A name.
    Symbol(String),
    /// A connective applied to arguments.
    Application { function: String, arguments: Vec<Term> },
    /// Any other term; the compiler does not take it.
    Other,
}

/// A command of the language, as far as the library acts on it.
#[derive(Debug)]
pub enum Command {
    Assert { term: Term },
    CheckSat,
    DeclareFun { symbol: String, parameters: Vec<String>, sort: String },
    Echo { message: String },
    Exit,
    Pop { level: usize },
    Push { level: usize },
    SetLogic { symbol: String },
    /// An option and its value, where the value is a symbol.
    SetOption { keyword: String, value: Option<String> },
    /// Any other command; it is passed over.
    Other,
}

/// What is to be done after a command.
#[derive(Debug)]
pub enum Action {
    Nothing,
    /// The message is to be printed.
    Print(String),
    /// The clauses asserted so far are to be checked.
    Check,
    /// No further command of the script is to be processed.
    Stop,
}

/// The names of all frames, from the bottom frame up.
pub open spec fn scope(frames: Seq<Frame>) -> Seq<(Seq<char>, usize)>
    decreases frames.len(),
{
    if frames.len() == 0 {
        Seq::empty()
    } else {
        scope(frames.drop_last()) + frames.last().symbols
    }
}

/// The clauses of all frames, from the bottom frame up.
pub open spec fn all_clauses(frames: Seq<Frame>) -> Seq<Seq<Literal>>
    decreases frames.len(),
{
    if frames.len() == 0 {
        Seq::empty()
    } else {
        all_clauses(frames.drop_last()) + frames.last().clauses
    }
}

/// `frames` with more names and more clauses in the top frame.
pub open spec fn grown(
    frames: Seq<Frame>,
    symbols: Seq<(Seq<char>, usize)>,
    clauses: Seq<Seq<Literal>>,
) -> Seq<Frame> {
    frames.drop_last().push(
        Frame {
            symbols: frames.last().symbols + symbols,
            functions: frames.last().functions,
            clauses: frames.last().clauses + clauses,
        },
    )
}

/// `frames` with one more function declared in the top frame.
pub open spec fn declared(
    frames: Seq<Frame>,
    id: usize,
    parameters: Seq<Seq<char>>,
    sort: Seq<char>,
) -> Seq<Frame> {
    frames.drop_last().push(
        Frame {
            symbols: frames.last().symbols,
            functions: frames.last().functions.insert(id, (parameters, sort)),
            clauses: frames.last().clauses,
        },
    )
}

/// The frame without names and clauses.
pub open spec fn empty_frame() -> Frame {
    Frame { symbols: Seq::empty(), functions: Map::empty(), clauses: Seq::empty() }
}

/// The identifier after `next`; zero after the last.
pub open spec fn bump(next: usize, count: nat) -> usize {
    if next + count > usize::MAX {
        0
    } else {
        (next + count) as usize
    }
}

/// From `next` on there are `count` identifiers.
pub open spec fn room(next: usize, count: nat) -> bool {
    count == 0 || (next != 0 && next + count - 1 <= usize::MAX)
}

/// The identifier of `name`: the one it has in `scope`, or else `next`,
/// with which it is entered. Gives the result, the scope and the upcoming
/// identifier.
pub open spec fn resolve(name: Seq<char>, scope: Seq<(Seq<char>, usize)>, next: usize) -> (
    Result<usize, Error>,
    Seq<(Seq<char>, usize)>,
    usize,
) {
    if exists|k: int| 0 <= k < scope.len() && (#[trigger] scope[k]).0 == name {
        (
            Ok(scope[choose|k: int| 0 <= k < scope.len() && (#[trigger] scope[k]).0 == name].1),
            scope,
            next,
        )
    } else if next == 0 {
        (Err(Error::IdExhausted), scope, next)
    } else {
        (Ok(next), scope.push((name, next)), bump(next, 1))
    }
}

/// The connective `function` applied to the literals `args`, with `next`
/// the upcoming identifier: the literal that stands for the application,
/// the upcoming identifier afterwards, and the clauses that define the
/// literal. `not` takes one argument and every other connective two.
pub open spec fn apply(function: Seq<char>, args: Seq<Literal>, next: usize) -> (
    Result<Literal, Error>,
    usize,
    Seq<Seq<Literal>>,
) {
    if function == NOT@ {
        if args.len() != 1 {
            (Err(Error::Arity), next, Seq::empty())
        } else {
            (Ok(args[0].negated()), next, Seq::empty())
        }
    } else if args.len() != 2 {
        (Err(Error::Arity), next, Seq::empty())
    } else if function == AND@ {
        if !room(next, 1) {
            (Err(Error::IdExhausted), next, Seq::empty())
        } else {
            (Ok(fresh(next as int)), bump(next, 1), and_clauses(fresh(next as int), args))
        }
    } else if function == OR@ {
        if !room(next, 1) {
            (Err(Error::IdExhausted), next, Seq::empty())
        } else {
            (Ok(fresh(next as int)), bump(next, 1), seq![or_clause(fresh(next as int), args)])
        }
    } else if function == IMPLICATION@ {
        if !room(next, 1) {
            (Err(Error::IdExhausted), next, Seq::empty())
        } else {
            (
                Ok(fresh(next as int)),
                bump(next, 1),
                seq![implication_clause(fresh(next as int), args[0], args[1])],
            )
        }
    } else if function == EQUALITY@ {
        if !room(next, 3) {
            (Err(Error::IdExhausted), next, Seq::empty())
        } else {
            (
                Ok(fresh(next + 2)),
                bump(next, 3),
                equality_clauses(
                    fresh(next + 2),
                    fresh(next + 1),
                    fresh(next as int),
                    args[0],
                    args[1],
                ),
            )
        }
    } else if function == XOR@ {
        if !room(next, 3) {
            (Err(Error::IdExhausted), next, Seq::empty())
        } else {
            (
                Ok(fresh(next + 2)),
                bump(next, 3),
                equality_clauses(
                    fresh(next + 2),
                    fresh(next + 1),
                    fresh(next as int),
                    args[0].negated(),
                    args[1],
                ),
            )
        }
    } else {
        (Err(Error::UnsupportedConnective), next, Seq::empty())
    }
}

/// What compiling gives: the literal that stands for the term, or the
/// error; the scope and the upcoming identifier afterwards; and the
/// clauses that were emitted.
pub struct Compiled {
    pub root: Result<Literal, Error>,
    pub scope: Seq<(Seq<char>, usize)>,
    pub next: usize,
    pub clauses: Seq<Seq<Literal>>,
}

/// The same for a list of terms.
pub struct CompiledAll {
    pub roots: Result<Seq<Literal>, Error>,
    pub scope: Seq<(Seq<char>, usize)>,
    pub next: usize,
    pub clauses: Seq<Seq<Literal>>,
}

/// The compiler. A name stands for itself, and is entered into the scope
/// where it is new. An application has its arguments compiled from left to
/// right, and then the connective applied to their literals. The first
/// error ends the compilation.
pub open spec fn compile(t: Term, scope: Seq<(Seq<char>, usize)>, next: usize) -> Compiled
    decreases t,
{
    match t {
        Term::Symbol(name) => {
            let r = resolve(name@, scope, next);
            Compiled {
                root: match r.0 {
                    Ok(id) => Ok(Literal { value: true, id }),
                    Err(e) => Err(e),
                },
                scope: r.1,
                next: r.2,
                clauses: Seq::empty(),
            }
        },
        Term::Application { function, arguments } => {
            let a = compile_all(arguments@, arguments@.len() as int, scope, next);
            match a.roots {
                Err(e) => Compiled { root: Err(e), scope: a.scope, next: a.next, clauses: a.clauses },
                Ok(roots) => {
                    let g = apply(function@, roots, a.next);
                    Compiled { root: g.0, scope: a.scope, next: g.1, clauses: a.clauses + g.2 }
                },
            }
        },
        Term::Other => Compiled {
            root: Err(Error::UnsupportedConnective),
            scope,
            next,
            clauses: Seq::empty(),
        },
    }
}

/// The compiler on the first `k` of `args`.
pub open spec fn compile_all(args: Seq<Term>, k: int, scope: Seq<(Seq<char>, usize)>, next: usize) -> CompiledAll
    decreases args, k,
{
    if k <= 0 || k > args.len() {
        CompiledAll { roots: Ok(Seq::empty()), scope, next, clauses: Seq::empty() }
    } else {
        let front = compile_all(args, k - 1, scope, next);
        match front.roots {
            Err(e) => front,
            Ok(roots) => {
                let c = compile(args[k - 1], front.scope, front.next);
                CompiledAll {
                    roots: match c.root {
                        Ok(l) => Ok(roots.push(l)),
                        Err(e) => Err(e),
                    },
                    scope: c.scope,
                    next: c.next,
                    clauses: front.clauses + c.clauses,
                }
            },
        }
    }
}


/// What a context holds.
pub struct State {
    pub logic: Option<Logic>,
    pub print_success: bool,
    pub produce_models: bool,
    pub exit: bool,
    /// The assertion frames, the bottom frame first.
    pub frames: Seq<Frame>,
    /// The identifier that will be issued next; zero when none is left.
    pub next: usize,
}

impl State {
    /// There is a bottom frame; no name and no identifier is in the scope
    /// twice; and every identifier of the scope was issued before.
    pub open spec fn wf(self) -> bool {
        &&& self.frames.len() >= 1
        &&& forall|a: int, b: int|
            0 <= a < b < scope(self.frames).len() ==> (#[trigger] scope(self.frames)[a]).0 != (
            #[trigger] scope(self.frames)[b]).0 && scope(self.frames)[a].1 != scope(self.frames)[b].1
        &&& forall|a: int|
            0 <= a < scope(self.frames).len() ==> self.next == 0 || (#[trigger] scope(
                self.frames,
            )[a]).1 < self.next
    }
}

/// A known option with the value `true` or `false`.
pub open spec fn option_ok(keyword: Seq<char>, value: Option<String>) -> bool {
    &&& keyword == PRINT_SUCCESS@ || keyword == PRODUCE_MODELS@
    &&& value matches Some(text)
    &&& text@ == "true"@ || text@ == "false"@
}

/// What one command does to a state, and what is to be done after it.
///
/// After `exit` every command is passed over. `assert` compiles its term
/// and adds the emitted clauses and the unit clause of the root literal to
/// the top frame. `declare-fun` enters the name. `push` adds empty frames
/// and `pop` removes frames, never the bottom one. `assert`, `push` and
/// `pop` need a logic, and `set-logic` may come once.
pub open spec fn step(s: State, command: Command) -> (Result<Action, Error>, State) {
    if s.exit {
        (Ok(Action::Nothing), s)
    } else {
        match command {
            Command::Assert { term } => {
                if s.logic is None {
                    (Err(Error::NoLogic), s)
                } else {
                    let c = compile(term, scope(s.frames), s.next);
                    let new_names = c.scope.skip(scope(s.frames).len() as int);
                    match c.root {
                        Ok(root) => (
                            Ok(Action::Nothing),
                            State {
                                frames: grown(s.frames, new_names, c.clauses.push(seq![root])),
                                next: c.next,
                                ..s
                            },
                        ),
                        Err(e) => (
                            Err(e),
                            State { frames: grown(s.frames, new_names, Seq::empty()), next: c.next, ..s },
                        ),
                    }
                }
            },
            Command::CheckSat => (Ok(Action::Check), s),
            Command::DeclareFun { symbol, parameters, sort } => {
                let r = resolve(symbol@, scope(s.frames), s.next);
                let new_names = r.1.skip(scope(s.frames).len() as int);
                match r.0 {
                    Ok(id) => (
                        Ok(Action::Nothing),
                        State {
                            frames: declared(
                                grown(s.frames, new_names, Seq::empty()),
                                id,
                                texts(parameters@),
                                sort@,
                            ),
                            next: r.2,
                            ..s
                        },
                    ),
                    Err(e) => (Err(e), s),
                }
            },
            Command::Echo { message } => (Ok(Action::Print(message)), s),
            Command::Exit => (Ok(Action::Stop), State { exit: true, ..s }),
            Command::Pop { level } => {
                if s.logic is None {
                    (Err(Error::NoLogic), s)
                } else if level >= s.frames.len() {
                    (Err(Error::PopUnderflow), s)
                } else {
                    (Ok(Action::Nothing), State { frames: s.frames.take(s.frames.len() - level), ..s })
                }
            },
            Command::Push { level } => {
                if s.logic is None {
                    (Err(Error::NoLogic), s)
                } else {
                    (
                        Ok(Action::Nothing),
                        State { frames: s.frames + Seq::new(level as nat, |i: int| empty_frame()), ..s },
                    )
                }
            },
            Command::SetLogic { symbol } => {
                if s.logic is Some {
                    (Err(Error::DoubleLogic), s)
                } else if !Logic::known(symbol@) {
                    (Err(Error::ParseError), s)
                } else {
                    (
                        Ok(Action::Nothing),
                        State {
                            logic: Some(
                                if symbol@ == "QF_UF"@ {
                                    Logic::QfUf
                                } else {
                                    Logic::QfLia
                                },
                            ),
                            ..s
                        },
                    )
                }
            },
            Command::SetOption { keyword, value } => {
                if !option_ok(keyword@, value) {
                    (Err(Error::ParseError), s)
                } else if keyword@ == PRINT_SUCCESS@ {
                    (Ok(Action::Nothing), State { print_success: value->0@ == "true"@, ..s })
                } else {
                    (Ok(Action::Nothing), State { produce_models: value->0@ == "true"@, ..s })
                }
            },
            Command::Other => (Ok(Action::Nothing), s),
        }
    }
}

/// The symbol table, the options and the assertion frames of a script.
pub struct Context {
    logic: Option<Logic>,
    print_success: bool,
    produce_models: bool,
    exit: bool,
    assertion_sets: Vec<AssertionSet>,
    ids: IdAllocator,
}

impl View for Context {
    type V = State;

    closed spec fn view(&self) -> State {
        State {
            logic: self.logic,
            print_success: self.print_success,
            produce_models: self.produce_models,
            exit: self.exit,
            frames: Seq::new(self.assertion_sets@.len(), |i: int| self.assertion_sets@[i]@),
            next: self.ids.upcoming(),
        }
    }
}

/// More names in the top frame are more names at the end of the scope.
pub proof fn lemma_grown(frames: Seq<Frame>, symbols: Seq<(Seq<char>, usize)>, clauses: Seq<Seq<Literal>>)
    requires
        frames.len() >= 1,
    ensures
        scope(grown(frames, symbols, clauses)) == scope(frames) + symbols,
        all_clauses(grown(frames, symbols, clauses)) == all_clauses(frames) + clauses,
        grown(frames, symbols, clauses).len() == frames.len(),
{
    let g = grown(frames, symbols, clauses);
    assert(g.drop_last() =~= frames.drop_last());
    assert(scope(g) =~= scope(frames) + symbols);
    assert(all_clauses(g) =~= all_clauses(frames) + clauses);
}

/// A declared function changes neither the names nor the clauses.
pub proof fn lemma_declared(frames: Seq<Frame>, id: usize, parameters: Seq<Seq<char>>, sort: Seq<char>)
    requires
        frames.len() >= 1,
    ensures
        scope(declared(frames, id, parameters, sort)) == scope(frames),
        all_clauses(declared(frames, id, parameters, sort)) == all_clauses(frames),
        declared(frames, id, parameters, sort).len() == frames.len(),
{
    let d = declared(frames, id, parameters, sort);
    assert(d.drop_last() =~= frames.drop_last());
}

/// A name of some frame is a name of the scope, and the other way round.
pub proof fn lemma_scope(frames: Seq<Frame>, e: (Seq<char>, usize))
    ensures
        scope(frames).contains(e) <==> exists|f: int|
            0 <= f < frames.len() && (#[trigger] frames[f]).symbols.contains(e),
    decreases frames.len(),
{
    if frames.len() > 0 {
        let rest = frames.drop_last();
        lemma_scope(rest, e);
        let s = scope(frames);
        if s.contains(e) {
            let k = choose|k: int| 0 <= k < s.len() && s[k] == e;
            if k < scope(rest).len() {
                assert(scope(rest)[k] == e);
                assert(scope(rest).contains(e));
                let f = choose|f: int| 0 <= f < rest.len() && (#[trigger] rest[f]).symbols.contains(e);
                assert(frames[f] == rest[f]);
            } else {
                assert(frames.last().symbols[k - scope(rest).len()] == e);
                assert(frames[frames.len() - 1].symbols.contains(e));
            }
        }
        if exists|f: int| 0 <= f < frames.len() && (#[trigger] frames[f]).symbols.contains(e) {
            let f = choose|f: int| 0 <= f < frames.len() && (#[trigger] frames[f]).symbols.contains(e);
            if f < rest.len() {
                assert(rest[f] == frames[f]);
                assert(scope(rest).contains(e));
                let k = choose|k: int| 0 <= k < scope(rest).len() && scope(rest)[k] == e;
                assert(s[k] == e);
            } else {
                let t = choose|t: int| 0 <= t < frames[f].symbols.len() && frames[f].symbols[t] == e;
                assert(s[scope(rest).len() + t] == e);
            }
        }
    }
}

impl Default for Context {
    fn default() -> (c: Context)
        ensures
            c.wf(),
            c@ == (State {
                logic: None,
                print_success: false,
                produce_models: false,
                exit: false,
                frames: seq![empty_frame()],
                next: 1,
            }),
    {
        let mut assertion_sets: Vec<AssertionSet> = Vec::new();
        assertion_sets.push(AssertionSet::default());
        let c = Context {
            logic: None,
            print_success: false,
            produce_models: false,
            exit: false,
            assertion_sets,
            ids: IdAllocator::new(),
        };
        proof {
            assert(c@.frames[0].symbols =~= Seq::empty());
            assert(c@.frames[0].functions =~= Map::empty());
            assert(c@.frames[0].clauses =~= Seq::empty());
            assert(c@.frames =~= seq![empty_frame()]);
            assert(c@.frames.drop_last() =~= Seq::empty());
            assert(scope(c@.frames.drop_last()) =~= Seq::empty());
            assert(scope(c@.frames) =~= Seq::empty());
        }
        c
    }
}

impl Context {
    /// The state is well formed, and no clause of any frame holds a
    /// literal twice.
    pub closed spec fn wf(&self) -> bool {
        &&& self@.wf()
        &&& forall|i: int| 0 <= i < self.assertion_sets@.len() ==> (#[trigger] self.assertion_sets@[i]).wf()
    }

    /// Whether no logic has been set.
    pub fn no_logic(&self) -> (b: bool)
        ensures
            b == (self@.logic is None),
    {
        self.logic.is_none()
    }

    /// The identifier of `symbol`: the one it has in some frame, or else a
    /// fresh one, with which it is entered into the top frame.
    #[verifier::rlimit(40)]
    pub fn get_symbol_id(&mut self, symbol: &str) -> (r: Result<usize, Error>)
        requires
            old(self).wf(),
        ensures
            final(self).wf(),
            r == resolve(symbol@, scope(old(self)@.frames), old(self)@.next).0,
            final(self)@ == (State {
                frames: grown(
                    old(self)@.frames,
                    resolve(symbol@, scope(old(self)@.frames), old(self)@.next).1.skip(
                        scope(old(self)@.frames).len() as int,
                    ),
                    Seq::empty(),
                ),
                next: resolve(symbol@, scope(old(self)@.frames), old(self)@.next).2,
                ..old(self)@
            }),
            scope(final(self)@.frames) == resolve(symbol@, scope(old(self)@.frames), old(self)@.next).1,
    {
        let ghost frames = self@.frames;
        let ghost sc = scope(frames);
        let mut f: usize = self.assertion_sets.len();
        proof {
            lemma_grown(frames, Seq::empty(), Seq::empty());
            assert(grown(frames, Seq::empty(), Seq::empty()) =~= frames) by {
                let g = grown(frames, Seq::empty(), Seq::empty());
                assert(g.len() == frames.len());
                assert forall|i: int| 0 <= i < frames.len() implies g[i] == frames[i] by {
                    if i == frames.len() - 1 {
                        assert(g[i].symbols =~= frames[i].symbols);
                        assert(g[i].clauses =~= frames[i].clauses);
                    }
                }
            }
        }
        while f > 0
            invariant
                f <= self.assertion_sets@.len(),
                *self == *old(self),
                old(self).wf(),
                frames == self@.frames,
                sc == scope(frames),
                grown(frames, Seq::empty(), Seq::empty()) == frames,
                forall|g: int| f <= g < frames.len() ==> !(#[trigger] frames[g]).has_name(symbol@),
            decreases f,
        {
            f -= 1;
            match self.assertion_sets[f].get_id(symbol) {
                Some(id) => {
                    proof {
                        let e = (symbol@, id);
                        assert(frames[f as int].symbols.contains(e));
                        lemma_scope(frames, e);
                        let k = choose|k: int| 0 <= k < sc.len() && sc[k] == e;
                        assert(sc[k].0 == symbol@);
                        let chosen = choose|k: int| 0 <= k < sc.len() && (#[trigger] sc[k]).0 == symbol@;
                        if chosen != k {
                            if chosen < k {
                                assert(sc[chosen].0 != sc[k].0);
                            } else {
                                assert(sc[k].0 != sc[chosen].0);
                            }
                        }
                        assert(sc.skip(sc.len() as int) =~= Seq::empty());
                    }
                    return Ok(id);
                },
                None => {},
            }
        }
        proof {
            if exists|k: int| 0 <= k < sc.len() && (#[trigger] sc[k]).0 == symbol@ {
                let k = choose|k: int| 0 <= k < sc.len() && (#[trigger] sc[k]).0 == symbol@;
                let e = sc[k];
                assert(sc.contains(e));
                lemma_scope(frames, e);
                let g = choose|g: int| 0 <= g < frames.len() && (#[trigger] frames[g]).symbols.contains(e);
                let t = choose|t: int| 0 <= t < frames[g].symbols.len() && frames[g].symbols[t] == e;
                assert(frames[g].symbols[t].0 == symbol@);
                assert(frames[g].has_name(symbol@));
            }
        }
        let id = match self.ids.get_id() {
            Ok(id) => id,
            Err(e) => {
                proof {
                    assert(sc.skip(sc.len() as int) =~= Seq::empty());
                }
                return Err(e);
            },
        };
        let last = self.assertion_sets.len() - 1;
        proof {
            if frames[last as int].has_id(id) {
                let t = choose|t: int|
                    0 <= t < frames[last as int].symbols.len() && (#[trigger] frames[last as int].symbols[t]).1
                        == id;
                let e = frames[last as int].symbols[t];
                assert(frames[last as int].symbols.contains(e));
                lemma_scope(frames, e);
                let k = choose|k: int| 0 <= k < sc.len() && sc[k] == e;
                assert(sc[k].1 < old(self)@.next);
            }
        }
        let entered = self.assertion_sets[last].set_id(symbol.to_owned(), id);
        proof {
            let added = seq![(symbol@, id)];
            assert(sc.push((symbol@, id)).skip(sc.len() as int) =~= added);
            let g = grown(frames, added, Seq::empty());
            assert(self@.frames =~= g) by {
                assert forall|i: int| 0 <= i < frames.len() implies self@.frames[i] == g[i] by {
                    if i == last {
                        assert(self@.frames[i].symbols =~= g[i].symbols);
                        assert(self@.frames[i].clauses =~= g[i].clauses);
                    } else {
                        assert(self.assertion_sets@[i] == old(self).assertion_sets@[i]);
                    }
                }
            }
            lemma_grown(frames, added, Seq::empty());
            let sc2 = scope(self@.frames);
            assert(sc2 =~= sc.push((symbol@, id)));
            assert forall|a: int, b: int| 0 <= a < b < sc2.len() implies (#[trigger] sc2[a]).0 != (
            #[trigger] sc2[b]).0 && sc2[a].1 != sc2[b].1 by {
                if b < sc.len() {
                    assert(sc2[a] == sc[a] && sc2[b] == sc[b]);
                } else {
                    assert(sc2[a] == sc[a]);
                    assert(sc[a].1 < old(self)@.next);
                }
            }
            assert forall|a: int| 0 <= a < sc2.len() implies self@.next == 0 || (#[trigger] sc2[a]).1
                < self@.next by {
                if a < sc.len() {
                    assert(sc2[a] == sc[a]);
                }
            }
            assert forall|i: int| 0 <= i < self.assertion_sets@.len() implies (#[trigger] self.assertion_sets@[i]).wf() by {
                if i != last {
                    assert(self.assertion_sets@[i] == old(self).assertion_sets@[i]);
                }
            }
        }
        Ok(id)
    }
}


/// Applies the connective `function` to `args`, on the clause list
/// `clauses` and with the identifiers of `ids`. See `apply`.
pub fn connect(function: &str, args: Vec<Literal>, clauses: &mut Vec<Clause>, ids: &mut IdAllocator) -> (r:
    Result<Literal, Error>)
    ensures
        r == apply(function@, args@, old(ids).upcoming()).0,
        final(ids).upcoming() == apply(function@, args@, old(ids).upcoming()).1,
        formula(final(clauses)@) == formula(old(clauses)@) + apply(
            function@,
            args@,
            old(ids).upcoming(),
        ).2,
        well_formed(old(clauses)@) ==> well_formed(final(clauses)@),
{
    let ghost before = formula(clauses@);
    proof {
        assert(before + Seq::<Seq<Literal>>::empty() =~= before);
    }
    if same_text(function, NOT) {
        if args.len() != 1 {
            return Err(Error::Arity);
        }
        return Ok(args[0].not());
    }
    if args.len() != 2 {
        return Err(Error::Arity);
    }
    if same_text(function, AND) {
        and(args, clauses, ids)
    } else if same_text(function, OR) {
        or(args, clauses, ids)
    } else if same_text(function, IMPLICATION) {
        implication(args, clauses, ids)
    } else if same_text(function, EQUALITY) {
        equality(args, clauses, ids)
    } else if same_text(function, XOR) {
        xor(args, clauses, ids)
    } else {
        Err(Error::UnsupportedConnective)
    }
}

/// Once an argument has failed, the arguments after it are not compiled.
pub proof fn lemma_compile_all_failed(
    args: Seq<Term>,
    k: int,
    more: int,
    scope: Seq<(Seq<char>, usize)>,
    next: usize,
)
    requires
        0 <= k <= more <= args.len(),
        compile_all(args, k, scope, next).roots is Err,
    ensures
        compile_all(args, more, scope, next) == compile_all(args, k, scope, next),
    decreases more - k,
{
    if k < more {
        lemma_compile_all_failed(args, k, more - 1, scope, next);
    }
}

/// Names that are entered one after the other are entered together.
pub proof fn lemma_grown_twice(
    frames: Seq<Frame>,
    first: Seq<(Seq<char>, usize)>,
    second: Seq<(Seq<char>, usize)>,
)
    requires
        frames.len() >= 1,
    ensures
        grown(grown(frames, first, Seq::empty()), second, Seq::empty()) == grown(
            frames,
            first + second,
            Seq::empty(),
        ),
{
    let once = grown(frames, first, Seq::empty());
    let twice = grown(once, second, Seq::empty());
    let both = grown(frames, first + second, Seq::empty());
    assert(once.drop_last() =~= frames.drop_last());
    assert(twice.len() == both.len());
    assert forall|i: int| 0 <= i < twice.len() implies twice[i] == both[i] by {
        if i == twice.len() - 1 {
            assert(twice[i].symbols =~= both[i].symbols);
            assert(twice[i].clauses =~= both[i].clauses);
        }
    }
    assert(twice =~= both);
}

impl Context {
    /// The Tseitin compiler: appends to `clauses` the clauses that define
    /// the literal that stands for `term`, and returns that literal. See
    /// `compile`.
    #[verifier::rlimit(40)]
    pub fn parse_term(&mut self, term: &Term, clauses: &mut Vec<Clause>) -> (r: Result<Literal, Error>)
        requires
            old(self).wf(),
        ensures
            final(self).wf(),
            r == compile(*term, scope(old(self)@.frames), old(self)@.next).root,
            scope(final(self)@.frames) == compile(
                *term,
                scope(old(self)@.frames),
                old(self)@.next,
            ).scope,
            final(self)@ == (State {
                frames: grown(
                    old(self)@.frames,
                    compile(*term, scope(old(self)@.frames), old(self)@.next).scope.skip(
                        scope(old(self)@.frames).len() as int,
                    ),
                    Seq::empty(),
                ),
                next: compile(*term, scope(old(self)@.frames), old(self)@.next).next,
                ..old(self)@
            }),
            scope(old(self)@.frames).is_prefix_of(scope(final(self)@.frames)),
            formula(final(clauses)@) == formula(old(clauses)@) + compile(
                *term,
                scope(old(self)@.frames),
                old(self)@.next,
            ).clauses,
            well_formed(old(clauses)@) ==> well_formed(final(clauses)@),
        decreases term,
    {
        let ghost frames0 = self@.frames;
        let ghost sc0 = scope(frames0);
        let ghost next0 = self@.next;
        let ghost db0 = formula(clauses@);
        proof {
            assert(db0 + Seq::<Seq<Literal>>::empty() =~= db0);
        }
        match term {
            Term::Symbol(name) => {
                match self.get_symbol_id(name.as_str()) {
                    Ok(id) => Ok(Literal::new(id)),
                    Err(e) => Err(e),
                }
            },
            Term::Application { function, arguments } => {
                let mut args: Vec<Literal> = Vec::new();
                let mut i: usize = 0;
                proof {
                    lemma_grown(frames0, Seq::empty(), Seq::empty());
                    assert(sc0.skip(sc0.len() as int) =~= Seq::empty());
                    assert(grown(frames0, Seq::empty(), Seq::empty()) =~= frames0) by {
                        let g = grown(frames0, Seq::empty(), Seq::empty());
                        assert forall|k: int| 0 <= k < frames0.len() implies g[k] == frames0[k] by {
                            if k == frames0.len() - 1 {
                                assert(g[k].symbols =~= frames0[k].symbols);
                                assert(g[k].clauses =~= frames0[k].clauses);
                            }
                        }
                    }
                }
                while i < arguments.len()
                    invariant
                        i <= arguments@.len(),
                        *term matches Term::Application { arguments: a, .. } && a == *arguments,
                        self.wf(),
                        frames0.len() >= 1,
                        sc0 == scope(frames0),
                        frames0 == old(self)@.frames,
                        next0 == old(self)@.next,
                        db0 == formula(old(clauses)@),
                        compile_all(arguments@, i as int, sc0, next0).roots == Ok::<Seq<Literal>, Error>(
                            args@,
                        ),
                        scope(self@.frames) == compile_all(arguments@, i as int, sc0, next0).scope,
                        sc0.is_prefix_of(scope(self@.frames)),
                        self@ == (State {
                            frames: grown(
                                frames0,
                                compile_all(arguments@, i as int, sc0, next0).scope.skip(sc0.len() as int),
                                Seq::empty(),
                            ),
                            next: compile_all(arguments@, i as int, sc0, next0).next,
                            ..old(self)@
                        }),
                        formula(clauses@) == db0 + compile_all(arguments@, i as int, sc0, next0).clauses,
                        well_formed(old(clauses)@) ==> well_formed(clauses@),
                    decreases arguments@.len() - i,
                {
                    proof {
                        vstd::std_specs::vec::axiom_vec_index_decreases(*arguments, i as int);
                    }
                    let ghost mid = self@;
                    let ghost front = compile_all(arguments@, i as int, sc0, next0);
                    let ghost step = compile(arguments@[i as int], front.scope, front.next);
                    let ghost now = compile_all(arguments@, i as int + 1, sc0, next0);
                    let parsed = self.parse_term(&arguments[i], clauses);
                    proof {
                        let first = front.scope.skip(sc0.len() as int);
                        let second = step.scope.skip(front.scope.len() as int);
                        assert(front.scope =~= sc0 + first);
                        assert(step.scope =~= front.scope + second);
                        assert(step.scope.skip(sc0.len() as int) =~= first + second);
                        lemma_grown_twice(frames0, first, second);
                        assert(now.scope == step.scope);
                        assert(now.next == step.next);
                        assert(now.clauses == front.clauses + step.clauses);
                        assert(db0 + front.clauses + step.clauses =~= db0 + (front.clauses + step.clauses));
                    }
                    match parsed {
                        Ok(l) => {
                            args.push(l);
                        },
                        Err(e) => {
                            proof {
                                lemma_compile_all_failed(
                                    arguments@,
                                    i as int + 1,
                                    arguments@.len() as int,
                                    sc0,
                                    next0,
                                );
                            }
                            return Err(e);
                        },
                    }
                    i += 1;
                }
                let ghost all = compile_all(arguments@, arguments@.len() as int, sc0, next0);
                let ghost before = *self;
                let r = connect(function.as_str(), args, clauses, &mut self.ids);
                proof {
                    let g = apply(function@, all.roots->Ok_0, all.next);
                    assert(db0 + all.clauses + g.2 =~= db0 + (all.clauses + g.2));
                    assert(self@.frames == before@.frames);
                    assert(g.1 == 0 || g.1 >= all.next);
                }
                r
            },
            Term::Other => {
                proof {
                    lemma_grown(frames0, Seq::empty(), Seq::empty());
                    assert(sc0.skip(sc0.len() as int) =~= Seq::empty());
                    assert(grown(frames0, Seq::empty(), Seq::empty()) =~= frames0) by {
                        let g = grown(frames0, Seq::empty(), Seq::empty());
                        assert forall|k: int| 0 <= k < frames0.len() implies g[k] == frames0[k] by {
                            if k == frames0.len() - 1 {
                                assert(g[k].symbols =~= frames0[k].symbols);
                                assert(g[k].clauses =~= frames0[k].clauses);
                            }
                        }
                    }
                }
                Err(Error::UnsupportedConnective)
            },
        }
    }
}


/// Empty frames on top add no names and no clauses.
pub proof fn lemma_pushed(frames: Seq<Frame>, count: nat)
    ensures
        scope(frames + Seq::new(count, |i: int| empty_frame())) == scope(frames),
        all_clauses(frames + Seq::new(count, |i: int| empty_frame())) == all_clauses(frames),
    decreases count,
{
    let more = frames + Seq::new(count, |i: int| empty_frame());
    if count == 0 {
        assert(more =~= frames);
    } else {
        let fewer = frames + Seq::new((count - 1) as nat, |i: int| empty_frame());
        lemma_pushed(frames, (count - 1) as nat);
        assert(more.drop_last() =~= fewer);
        assert(more.last() == empty_frame());
        assert(scope(more) =~= scope(fewer));
        assert(all_clauses(more) =~= all_clauses(fewer));
    }
}

/// The names of the lower frames come first in the scope.
pub proof fn lemma_popped(frames: Seq<Frame>, k: int)
    requires
        0 <= k <= frames.len(),
    ensures
        scope(frames.take(k)).is_prefix_of(scope(frames)),
    decreases frames.len() - k,
{
    if k < frames.len() {
        lemma_popped(frames, k + 1);
        let longer = frames.take(k + 1);
        assert(longer.drop_last() =~= frames.take(k));
        assert(scope(frames.take(k)).is_prefix_of(scope(longer)));
    } else {
        assert(frames.take(k) =~= frames);
    }
}

/// What a list of commands does to a state: each command in its turn,
/// until one fails or the script has ended. Gives the actions, or the
/// error, and the state at the end.
pub open spec fn run(s: State, commands: Seq<Command>, k: int) -> (Result<Seq<Action>, Error>, State)
    decreases k,
{
    if k <= 0 || k > commands.len() {
        (Ok(Seq::empty()), s)
    } else {
        let before = run(s, commands, k - 1);
        match before.0 {
            Err(e) => before,
            Ok(actions) => {
                if before.1.exit {
                    before
                } else {
                    let now = step(before.1, commands[k - 1]);
                    match now.0 {
                        Ok(action) => (Ok(actions.push(action)), now.1),
                        Err(e) => (Err(e), now.1),
                    }
                }
            },
        }
    }
}

/// A script that has failed or ended takes no further command.
pub proof fn lemma_run_over(s: State, commands: Seq<Command>, k: int, more: int)
    requires
        0 <= k <= more <= commands.len(),
        run(s, commands, k).0 is Err || run(s, commands, k).1.exit,
    ensures
        run(s, commands, more) == run(s, commands, k),
    decreases more - k,
{
    if k < more {
        lemma_run_over(s, commands, k, more - 1);
    }
}

impl Context {
    /// Sets the logic. Fails where one is set already, or the name is not
    /// that of a logic.
    pub fn set_logic(&mut self, symbol: &str) -> (r: Result<(), Error>)
        ensures
            match r {
                Ok(_) => old(self)@.logic is None && Logic::known(symbol@) && final(self)@ == (State {
                    logic: Some(
                        if symbol@ == "QF_UF"@ {
                            Logic::QfUf
                        } else {
                            Logic::QfLia
                        },
                    ),
                    ..old(self)@
                }),
                Err(e) => final(self)@ == old(self)@ && e == if old(self)@.logic is Some {
                    Error::DoubleLogic
                } else {
                    Error::ParseError
                } && (old(self)@.logic is Some || !Logic::known(symbol@)),
            },
            old(self).wf() ==> final(self).wf(),
    {
        if !self.no_logic() {
            return Err(Error::DoubleLogic);
        }
        if !Logic::recognizes(symbol) {
            return Err(Error::ParseError);
        }
        self.logic = Some(Logic::new(symbol));
        proof {
            assert(self@.frames == old(self)@.frames);
        }
        Ok(())
    }

    /// Sets the option `keyword`, one of `print-success` and
    /// `produce-models`, to the Boolean that `value` names.
    pub fn set_option(&mut self, keyword: &str, value: &Option<String>) -> (r: Result<(), Error>)
        ensures
            match r {
                Ok(_) => option_ok(keyword@, *value) && final(self)@ == if keyword@ == PRINT_SUCCESS@ {
                    State { print_success: value->0@ == "true"@, ..old(self)@ }
                } else {
                    State { produce_models: value->0@ == "true"@, ..old(self)@ }
                },
                Err(e) => e == Error::ParseError && !option_ok(keyword@, *value) && final(self)@ == old(
                    self,
                )@,
            },
            old(self).wf() ==> final(self).wf(),
    {
        let print = same_text(keyword, PRINT_SUCCESS);
        let models = same_text(keyword, PRODUCE_MODELS);
        if !print && !models {
            return Err(Error::ParseError);
        }
        let flag = match value {
            Some(text) => {
                if same_text(text.as_str(), "true") || same_text(text.as_str(), "false") {
                    str_to_bool(text.as_str())
                } else {
                    return Err(Error::ParseError);
                }
            },
            None => {
                return Err(Error::ParseError);
            },
        };
        if print {
            self.print_success = flag;
        } else {
            self.produce_models = flag;
        }
        proof {
            assert(self@.frames == old(self)@.frames);
        }
        Ok(())
    }

    /// Processes one command. See `step`.
    #[verifier::rlimit(40)]
    pub fn process_command(&mut self, command: Command) -> (r: Result<Action, Error>)
        requires
            old(self).wf(),
        ensures
            final(self).wf(),
            r == step(old(self)@, command).0,
            final(self)@ == step(old(self)@, command).1,
    {
        if self.exit {
            return Ok(Action::Nothing);
        }
        let ghost s = self@;
        let ghost frames0 = self@.frames;
        let ghost sc0 = scope(frames0);
        match command {
            Command::Assert { term } => {
                if self.no_logic() {
                    return Err(Error::NoLogic);
                }
                let mut clauses: Vec<Clause> = Vec::new();
                proof {
                    assert(formula(clauses@) =~= Seq::<Seq<Literal>>::empty());
                }
                let ghost c = compile(term, sc0, s.next);
                let literal = match self.parse_term(&term, &mut clauses) {
                    Ok(l) => l,
                    Err(e) => {
                        return Err(e);
                    },
                };
                let ghost mid = *self;
                let mut unit: Vec<Literal> = Vec::new();
                unit.push(literal);
                let ghost emitted = formula(clauses@);
                clauses.push(Clause::new(unit));
                let last = self.assertion_sets.len() - 1;
                self.assertion_sets[last].add_clauses(clauses);
                proof {
                    assert(emitted =~= c.clauses);
                    crate::seqs::lemma_distinct(seq![literal]);
                    assert(formula(clauses@) =~= c.clauses.push(seq![literal]));
                    let names = c.scope.skip(sc0.len() as int);
                    let target = grown(frames0, names, c.clauses.push(seq![literal]));
                    assert(self@.frames =~= target) by {
                        assert forall|i: int| 0 <= i < target.len() implies self@.frames[i] == target[i] by {
                            if i == last {
                                assert(self@.frames[i].symbols =~= target[i].symbols);
                                assert(self@.frames[i].clauses =~= target[i].clauses);
                            } else {
                                assert(self.assertion_sets@[i] == mid.assertion_sets@[i]);
                                assert(self@.frames[i] == mid@.frames[i]);
                            }
                        }
                    }
                    lemma_grown(frames0, names, c.clauses.push(seq![literal]));
                    lemma_grown(frames0, names, Seq::empty());
                    assert(scope(self@.frames) == scope(mid@.frames));
                    assert forall|i: int| 0 <= i < self.assertion_sets@.len() implies (#[trigger] self.assertion_sets@[i]).wf() by {
                        if i != last {
                            assert(self.assertion_sets@[i] == mid.assertion_sets@[i]);
                        }
                    }
                }
                Ok(Action::Nothing)
            },
            Command::CheckSat => Ok(Action::Check),
            Command::DeclareFun { symbol, parameters, sort } => {
                let ghost r = resolve(symbol@, sc0, s.next);
                let id = match self.get_symbol_id(symbol.as_str()) {
                    Ok(id) => id,
                    Err(e) => {
                        proof {
                            assert(sc0.skip(sc0.len() as int) =~= Seq::empty());
                            assert(grown(frames0, Seq::empty(), Seq::empty()) =~= frames0) by {
                                let g = grown(frames0, Seq::empty(), Seq::empty());
                                assert forall|k: int| 0 <= k < frames0.len() implies g[k] == frames0[k] by {
                                    if k == frames0.len() - 1 {
                                        assert(g[k].symbols =~= frames0[k].symbols);
                                        assert(g[k].clauses =~= frames0[k].clauses);
                                    }
                                }
                            }
                        }
                        return Err(e);
                    },
                };
                let ghost mid = *self;
                let ghost sorts = texts(parameters@);
                let ghost result = sort@;
                let last = self.assertion_sets.len() - 1;
                self.assertion_sets[last].add_uninterpreted_function(id, parameters, sort);
                proof {
                    let target = declared(mid@.frames, id, sorts, result);
                    assert(self@.frames =~= target) by {
                        assert forall|i: int| 0 <= i < target.len() implies self@.frames[i] == target[i] by {
                            if i != last {
                                assert(self.assertion_sets@[i] == mid.assertion_sets@[i]);
                                assert(self@.frames[i] == mid@.frames[i]);
                            }
                        }
                    }
                    lemma_declared(mid@.frames, id, sorts, result);
                    assert forall|i: int| 0 <= i < self.assertion_sets@.len() implies (#[trigger] self.assertion_sets@[i]).wf() by {
                        if i != last {
                            assert(self.assertion_sets@[i] == mid.assertion_sets@[i]);
                        }
                    }
                }
                Ok(Action::Nothing)
            },
            Command::Echo { message } => Ok(Action::Print(message)),
            Command::Exit => {
                self.exit = true;
                proof {
                    assert(self@.frames == frames0);
                }
                Ok(Action::Stop)
            },
            Command::Pop { level } => {
                if self.no_logic() {
                    return Err(Error::NoLogic);
                }
                let current_len = self.assertion_sets.len();
                if level >= current_len {
                    return Err(Error::PopUnderflow);
                }
                self.assertion_sets.truncate(current_len - level);
                proof {
                    let kept = current_len - level;
                    assert(self@.frames =~= frames0.take(kept as int));
                    lemma_popped(frames0, kept as int);
                    let sc = scope(self@.frames);
                    assert forall|a: int, b: int| 0 <= a < b < sc.len() implies (#[trigger] sc[a]).0 != (
                    #[trigger] sc[b]).0 && sc[a].1 != sc[b].1 by {
                        assert(sc[a] == sc0[a] && sc[b] == sc0[b]);
                    }
                    assert forall|a: int| 0 <= a < sc.len() implies self@.next == 0 || (#[trigger] sc[a]).1
                        < self@.next by {
                        assert(sc[a] == sc0[a]);
                    }
                }
                Ok(Action::Nothing)
            },
            Command::Push { level } => {
                if self.no_logic() {
                    return Err(Error::NoLogic);
                }
                let mut pushed: usize = 0;
                while pushed < level
                    invariant
                        pushed <= level,
                        self@ == (State {
                            frames: frames0 + Seq::new(pushed as nat, |i: int| empty_frame()),
                            ..s
                        }),
                        forall|i: int| 0 <= i < self.assertion_sets@.len() ==> (#[trigger] self.assertion_sets@[i]).wf(),
                    decreases level - pushed,
                {
                    let ghost before = self@.frames;
                    self.assertion_sets.push(AssertionSet::default());
                    proof {
                        let added = self.assertion_sets@[self.assertion_sets@.len() - 1]@;
                        assert(added.symbols =~= Seq::empty());
                        assert(added.functions =~= Map::empty());
                        assert(added.clauses =~= Seq::empty());
                        assert(added == empty_frame());
                        assert(before == frames0 + Seq::new(pushed as nat, |i: int| empty_frame()));
                        assert(self@.frames.len() == before.len() + 1);
                        assert forall|i: int| 0 <= i < before.len() implies self@.frames[i] == before[i] by {}
                        assert(self@.frames =~= before.push(added));
                        assert(self@.frames =~= frames0 + Seq::new(
                            (pushed + 1) as nat,
                            |i: int| empty_frame(),
                        ));
                    }
                    pushed += 1;
                }
                proof {
                    lemma_pushed(frames0, level as nat);
                }
                Ok(Action::Nothing)
            },
            Command::SetLogic { symbol } => {
                match self.set_logic(symbol.as_str()) {
                    Ok(_) => Ok(Action::Nothing),
                    Err(e) => Err(e),
                }
            },
            Command::SetOption { keyword, value } => {
                match self.set_option(keyword.as_str(), &value) {
                    Ok(_) => Ok(Action::Nothing),
                    Err(e) => Err(e),
                }
            },
            Command::Other => Ok(Action::Nothing),
        }
    }

    /// The clauses of all frames, from the bottom frame up.
    pub fn get_clauses(&self) -> (r: Vec<Clause>)
        requires
            self.wf(),
        ensures
            formula(r@) == all_clauses(self@.frames),
            well_formed(r@),
    {
        let mut r: Vec<Clause> = Vec::new();
        let mut f: usize = 0;
        proof {
            assert(self@.frames.take(0) =~= Seq::empty());
            assert(formula(r@) =~= all_clauses(self@.frames.take(0)));
        }
        while f < self.assertion_sets.len()
            invariant
                self.wf(),
                f <= self.assertion_sets@.len(),
                formula(r@) == all_clauses(self@.frames.take(f as int)),
                well_formed(r@),
            decreases self.assertion_sets@.len() - f,
        {
            let clauses = self.assertion_sets[f].get_clauses();
            let ghost start = r@;
            let mut i: usize = 0;
            assert(self.assertion_sets@[f as int].wf());
            while i < clauses.len()
                invariant
                    i <= clauses@.len(),
                    well_formed(clauses@),
                    well_formed(r@),
                    formula(r@) == formula(start) + formula(clauses@).take(i as int),
                decreases clauses@.len() - i,
            {
                let ghost before = r@;
                assert(clauses@[i as int].wf());
                r.push(clauses[i].clone());
                proof {
                    assert(formula(r@) =~= formula(before).push(clauses@[i as int]@));
                    assert(formula(clauses@).take(i as int + 1) =~= formula(clauses@).take(i as int).push(
                        clauses@[i as int]@,
                    ));
                    assert(formula(r@) =~= formula(start) + formula(clauses@).take(i as int + 1));
                    assert forall|x: int| 0 <= x < r@.len() implies (#[trigger] r@[x]).wf() by {
                        if x < before.len() {
                            assert(r@[x] == before[x]);
                        }
                    }
                }
                i += 1;
            }
            proof {
                assert(formula(clauses@).take(i as int) =~= formula(clauses@));
                let longer = self@.frames.take(f as int + 1);
                assert(longer.drop_last() =~= self@.frames.take(f as int));
                assert(longer.last() == self@.frames[f as int]);
            }
            f += 1;
        }
        proof {
            assert(self@.frames.take(f as int) =~= self@.frames);
        }
        r
    }

    /// The verdict on the clauses of all frames.
    pub fn solve(&self) -> (r: Res)
        requires
            self.wf(),
        ensures
            r == checked(all_clauses(self@.frames)),
    {
        self.check_sat().0
    }

    /// The verdict on the clauses of all frames, and the reported model,
    /// over the identifiers of the names.
    pub fn check_sat(&self) -> (r: (Res, Vec<(usize, bool)>))
        requires
            self.wf(),
        ensures
            r.0 == checked(all_clauses(self@.frames)),
            r.0 == Res::SAT ==> forall|i: int|
                0 <= i < all_clauses(self@.frames).len() && outlives(all_clauses(self@.frames), i)
                    ==> reported_true(#[trigger] all_clauses(self@.frames)[i], r.1@),
            r.0 == Res::SAT && spares(unit_run(all_clauses(self@.frames), Map::empty()).1)
                ==> satisfied_by(all_clauses(self@.frames), r.1@),
            r.0 == check_result(all_clauses(self@.frames)).0,
            r.1@ == check_result(all_clauses(self@.frames)).1,
    {
        let clauses = self.get_clauses();
        check(clauses)
    }

    /// The identifier of `symbol`, if the name is in some frame.
    pub fn lookup(&self, symbol: &str) -> (r: Option<usize>)
        requires
            self.wf(),
        ensures
            match r {
                Some(id) => scope(self@.frames).contains((symbol@, id)),
                None => forall|k: int|
                    0 <= k < scope(self@.frames).len() ==> (#[trigger] scope(self@.frames)[k]).0
                        != symbol@,
            },
    {
        let ghost frames = self@.frames;
        let ghost sc = scope(frames);
        let mut f: usize = self.assertion_sets.len();
        while f > 0
            invariant
                f <= self.assertion_sets@.len(),
                frames == self@.frames,
                sc == scope(frames),
                forall|g: int| f <= g < frames.len() ==> !(#[trigger] frames[g]).has_name(symbol@),
            decreases f,
        {
            f -= 1;
            match self.assertion_sets[f].get_id(symbol) {
                Some(id) => {
                    proof {
                        assert(frames[f as int].symbols.contains((symbol@, id)));
                        lemma_scope(frames, (symbol@, id));
                    }
                    return Some(id);
                },
                None => {},
            }
        }
        proof {
            assert forall|k: int| 0 <= k < sc.len() implies (#[trigger] sc[k]).0 != symbol@ by {
                if sc[k].0 == symbol@ {
                    let e = sc[k];
                    assert(sc.contains(e));
                    lemma_scope(frames, e);
                    let g = choose|g: int| 0 <= g < frames.len() && (#[trigger] frames[g]).symbols.contains(e);
                    let t = choose|t: int| 0 <= t < frames[g].symbols.len() && frames[g].symbols[t] == e;
                    assert(frames[g].symbols[t].0 == symbol@);
                    assert(frames[g].has_name(symbol@));
                }
            }
        }
        None
    }
}


impl Context {
    /// Processes the commands in their order, until one fails or the script
    /// has ended. Returns what is to be done after each. See `run`.
    pub fn process_commands(&mut self, commands: Vec<Command>) -> (r: Result<Vec<Action>, Error>)
        requires
            old(self).wf(),
        ensures
            final(self).wf(),
            final(self)@ == run(old(self)@, commands@, commands@.len() as int).1,
            match r {
                Ok(actions) => run(old(self)@, commands@, commands@.len() as int).0 == Ok::<
                    Seq<Action>,
                    Error,
                >(actions@),
                Err(e) => run(old(self)@, commands@, commands@.len() as int).0 == Err::<
                    Seq<Action>,
                    Error,
                >(e),
            },
    {
        let ghost all = commands@;
        let ghost start = self@;
        let total = commands.len();
        let mut rest = commands;
        let mut waiting: Vec<Command> = Vec::new();
        while rest.len() > 0
            invariant
                rest@.len() + waiting@.len() == total,
                total == all.len(),
                rest@ == all.take(rest@.len() as int),
                forall|j: int| 0 <= j < waiting@.len() ==> #[trigger] waiting@[j] == all[total - 1 - j],
            decreases rest@.len(),
        {
            let ghost before = rest@;
            let command = rest.pop().unwrap();
            proof {
                assert(command == all[before.len() - 1]);
                assert(rest@ =~= all.take(rest@.len() as int));
            }
            waiting.push(command);
        }
        let mut actions: Vec<Action> = Vec::new();
        let mut k: usize = 0;
        while k < total
            invariant
                k <= total,
                total == all.len(),
                waiting@.len() == total - k,
                forall|j: int| 0 <= j < waiting@.len() ==> #[trigger] waiting@[j] == all[total - 1 - j],
                self.wf(),
                start == old(self)@,
                all == commands@,
                run(start, all, k as int) == (Ok::<Seq<Action>, Error>(actions@), self@),
            decreases total - k,
        {
            if self.exit {
                proof {
                    lemma_run_over(start, all, k as int, total as int);
                }
                return Ok(actions);
            }
            let command = waiting.pop().unwrap();
            proof {
                assert(command == all[k as int]);
            }
            match self.process_command(command) {
                Ok(action) => {
                    actions.push(action);
                },
                Err(e) => {
                    proof {
                        lemma_run_over(start, all, k as int + 1, total as int);
                    }
                    return Err(e);
                },
            }
            k += 1;
        }
        Ok(actions)
    }
}

} // verus!
