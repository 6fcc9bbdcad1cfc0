//! What the compiled clauses say about the term: the meaning of a term, and
//! how the literal that stands for it is tied to that meaning.

use vstd::prelude::*;
use crate::assertion_set::{equality_clauses, fresh, Literal};
use crate::constants::{AND, EQUALITY, IMPLICATION, NOT, OR, XOR};
use crate::context::{
    all_clauses, apply, bump, compile, compile_all, grown, resolve, room, scope, step, Command, State,
    Term,
};
use crate::error::Error;
use crate::model::{clause_true, lit_true, models, satisfiable, total};
use crate::seqs::{distinct, lemma_distinct};

verus! {

/// The identifier `id` was issued before `next` became the upcoming one.
pub open spec fn below(id: usize, next: usize) -> bool {
    next == 0 || id < next
}

/// `sc` has an entry for `name`.
pub open spec fn has_name(sc: Seq<(Seq<char>, usize)>, name: Seq<char>) -> bool {
    exists|k: int| 0 <= k < sc.len() && (#[trigger] sc[k]).0 == name
}

/// `sc` has an entry with the identifier `id`.
pub open spec fn has_id(sc: Seq<(Seq<char>, usize)>, id: usize) -> bool {
    exists|k: int| 0 <= k < sc.len() && (#[trigger] sc[k]).1 == id
}

/// The identifier of `name` in `sc`.
pub open spec fn id_of(sc: Seq<(Seq<char>, usize)>, name: Seq<char>) -> usize {
    sc[choose|k: int| 0 <= k < sc.len() && (#[trigger] sc[k]).0 == name].1
}

/// No name and no identifier is in `sc` twice, and every identifier of
/// `sc` was issued.
pub open spec fn scope_wf(sc: Seq<(Seq<char>, usize)>, next: usize) -> bool {
    &&& forall|a: int, b: int|
        0 <= a < b < sc.len() ==> (#[trigger] sc[a]).0 != (#[trigger] sc[b]).0 && sc[a].1 != sc[b].1
    &&& forall|a: int| 0 <= a < sc.len() ==> below((#[trigger] sc[a]).1, next)
}

/// The value of each of the first `k` terms of `args`.
pub open spec fn values(args: Seq<Term>, k: int, sc: Seq<(Seq<char>, usize)>, m: Map<usize, bool>) -> Seq<
    bool,
>
    decreases args, k,
{
    if k <= 0 || k > args.len() {
        Seq::empty()
    } else {
        values(args, k - 1, sc, m).push(value(args[k - 1], sc, m))
    }
}

/// The value of the connective `function` on arguments of the values `v`.
/// Anything that is no connective with the right number of arguments has
/// the value `false`.
pub open spec fn truth(function: Seq<char>, v: Seq<bool>) -> bool {
    if function == NOT@ {
        v.len() == 1 && !v[0]
    } else if v.len() != 2 {
        false
    } else if function == AND@ {
        v[0] && v[1]
    } else if function == OR@ {
        v[0] || v[1]
    } else if function == IMPLICATION@ {
        !v[0] || v[1]
    } else if function == EQUALITY@ {
        v[0] == v[1]
    } else if function == XOR@ {
        v[0] != v[1]
    } else {
        false
    }
}

/// The value of the term `t` where each name has the value that `m` gives
/// to its identifier in `sc`. A term that the compiler does not take has
/// the value `false`.
pub open spec fn value(t: Term, sc: Seq<(Seq<char>, usize)>, m: Map<usize, bool>) -> bool
    decreases t,
{
    match t {
        Term::Symbol(name) => m[id_of(sc, name@)],
        Term::Application { function, arguments } => truth(
            function@,
            values(arguments@, arguments@.len() as int, sc, m),
        ),
        Term::Other => false,
    }
}

/// Every name of `t` is in `sc`.
pub open spec fn names_in(t: Term, sc: Seq<(Seq<char>, usize)>) -> bool
    decreases t,
{
    match t {
        Term::Symbol(name) => has_name(sc, name@),
        Term::Application { function, arguments } => all_names_in(
            arguments@,
            arguments@.len() as int,
            sc,
        ),
        Term::Other => true,
    }
}

/// Every name of the first `k` terms of `args` is in `sc`.
pub open spec fn all_names_in(args: Seq<Term>, k: int, sc: Seq<(Seq<char>, usize)>) -> bool
    decreases args, k,
{
    if k <= 0 || k > args.len() {
        true
    } else {
        all_names_in(args, k - 1, sc) && names_in(args[k - 1], sc)
    }
}

/// `id` is the identifier of a name of `sc`, or was issued from `lo` on
/// and before `hi`.
pub open spec fn known(id: usize, sc: Seq<(Seq<char>, usize)>, lo: usize, hi: usize) -> bool {
    has_id(sc, id) || (!below(id, lo) && below(id, hi))
}

/// Every identifier in the clauses `f` is known.
pub open spec fn all_known(f: Seq<Seq<Literal>>, sc: Seq<(Seq<char>, usize)>, lo: usize, hi: usize) -> bool {
    forall|i: int, j: int|
        0 <= i < f.len() && 0 <= j < f[i].len() ==> known((#[trigger] f[i][j]).id, sc, lo, hi)
}

/// A name keeps its identifier when the scope grows.
pub proof fn lemma_id_of(sc: Seq<(Seq<char>, usize)>, more: Seq<(Seq<char>, usize)>, name: Seq<char>, next: usize)
    requires
        sc.is_prefix_of(more),
        scope_wf(more, next),
        has_name(sc, name),
    ensures
        id_of(more, name) == id_of(sc, name),
        has_name(more, name),
        has_id(sc, id_of(sc, name)),
{
    let k = choose|k: int| 0 <= k < sc.len() && (#[trigger] sc[k]).0 == name;
    assert(more[k] == sc[k]);
    let k2 = choose|k: int| 0 <= k < more.len() && (#[trigger] more[k]).0 == name;
    if k2 != k {
        if k2 < k {
            assert(more[k2].0 != more[k].0);
        } else {
            assert(more[k].0 != more[k2].0);
        }
    }
}

/// The value of a term whose names are in the scope stays the same when
/// the scope grows, and depends on the valuation at the identifiers of the
/// scope only.
pub proof fn lemma_value_stable(
    t: Term,
    sc: Seq<(Seq<char>, usize)>,
    more: Seq<(Seq<char>, usize)>,
    next: usize,
    m: Map<usize, bool>,
    m2: Map<usize, bool>,
)
    requires
        sc.is_prefix_of(more),
        scope_wf(more, next),
        names_in(t, sc),
        forall|id: usize| has_id(sc, id) ==> m[id] == m2[id],
    ensures
        value(t, more, m2) == value(t, sc, m),
        names_in(t, more),
    decreases t,
{
    match t {
        Term::Symbol(name) => {
            lemma_id_of(sc, more, name@, next);
        },
        Term::Application { function, arguments } => {
            lemma_values_stable(arguments@, arguments@.len() as int, sc, more, next, m, m2);
        },
        Term::Other => {},
    }
}

/// The same for the first `k` terms of `args`.
pub proof fn lemma_values_stable(
    args: Seq<Term>,
    k: int,
    sc: Seq<(Seq<char>, usize)>,
    more: Seq<(Seq<char>, usize)>,
    next: usize,
    m: Map<usize, bool>,
    m2: Map<usize, bool>,
)
    requires
        sc.is_prefix_of(more),
        scope_wf(more, next),
        all_names_in(args, k, sc),
        forall|id: usize| has_id(sc, id) ==> m[id] == m2[id],
    ensures
        values(args, k, more, m2) == values(args, k, sc, m),
        all_names_in(args, k, more),
        0 <= k <= args.len() ==> values(args, k, sc, m).len() == k,
    decreases args, k,
{
    if 0 < k <= args.len() {
        lemma_values_stable(args, k - 1, sc, more, next, m, m2);
        lemma_value_stable(args[k - 1], sc, more, next, m, m2);
    }
}


/// `more` is `sc` with names entered whose identifiers were issued from
/// `next` on.
pub open spec fn grows(sc: Seq<(Seq<char>, usize)>, more: Seq<(Seq<char>, usize)>, next: usize) -> bool {
    &&& sc.is_prefix_of(more)
    &&& forall|k: int| sc.len() <= k < more.len() ==> !below((#[trigger] more[k]).1, next)
}

/// Whatever was issued before `lo` was issued before `hi`.
pub open spec fn later(lo: usize, hi: usize) -> bool {
    forall|id: usize| #[trigger] below(id, lo) ==> below(id, hi)
}

/// The identifiers of a clause without repetitions are those of the clause.
proof fn lemma_distinct_known(s: Seq<Literal>, sc: Seq<(Seq<char>, usize)>, lo: usize, hi: usize)
    requires
        forall|j: int| 0 <= j < s.len() ==> known((#[trigger] s[j]).id, sc, lo, hi),
    ensures
        forall|j: int| 0 <= j < distinct(s).len() ==> known((#[trigger] distinct(s)[j]).id, sc, lo, hi),
{
    lemma_distinct(s);
    assert forall|j: int| 0 <= j < distinct(s).len() implies known(
        (#[trigger] distinct(s)[j]).id,
        sc,
        lo,
        hi,
    ) by {
        let l = distinct(s)[j];
        assert(distinct(s).contains(l));
        assert(s.contains(l));
        let t = choose|t: int| 0 <= t < s.len() && s[t] == l;
        assert(known(s[t].id, sc, lo, hi));
    }
}

/// What a connective emits is made of its arguments and of literals whose
/// identifiers it takes from `next` on.
#[verifier::rlimit(40)]
pub proof fn lemma_apply_shape(
    function: Seq<char>,
    args: Seq<Literal>,
    next: usize,
    sc: Seq<(Seq<char>, usize)>,
    lo: usize,
)
    requires
        later(lo, next),
        forall|i: int| 0 <= i < args.len() ==> known((#[trigger] args[i]).id, sc, lo, next),
    ensures
        later(next, apply(function, args, next).1),
        later(lo, apply(function, args, next).1),
        all_known(apply(function, args, next).2, sc, lo, apply(function, args, next).1),
        apply(function, args, next).0 matches Ok(root) ==> known(
            root.id,
            sc,
            lo,
            apply(function, args, next).1,
        ),
{
    let g = apply(function, args, next);
    let hi = g.1;
    assert(later(next, hi)) by {
        assert forall|id: usize| #[trigger] below(id, next) implies below(id, hi) by {}
    }
    assert(later(lo, hi)) by {
        assert forall|id: usize| #[trigger] below(id, lo) implies below(id, hi) by {
            assert(below(id, next));
        }
    }
    assert forall|i: int| 0 <= i < args.len() implies known((#[trigger] args[i]).id, sc, lo, hi) by {
        assert(known(args[i].id, sc, lo, next));
        if !has_id(sc, args[i].id) {
            assert(below(args[i].id, next));
        }
    }
    if g.0 is Ok && function != NOT@ {
        let l0 = fresh(next as int);
        assert(forall|d: int|
            0 <= d < 3 && next + d <= usize::MAX ==> (#[trigger] fresh(next + d)).id == next + d);
        if function == AND@ || function == OR@ || function == IMPLICATION@ {
            assert(room(next, 1));
            assert(known(l0.id, sc, lo, hi)) by {
                if below(l0.id, lo) {
                    assert(below(l0.id, next));
                }
            }
        }
        if function == AND@ {
            assert forall|i: int, j: int|
                0 <= i < g.2.len() && 0 <= j < g.2[i].len() implies known(
                (#[trigger] g.2[i][j]).id,
                sc,
                lo,
                hi,
            ) by {
                let pair = seq![l0.negated(), args[i]];
                assert forall|t: int| 0 <= t < pair.len() implies known((#[trigger] pair[t]).id, sc, lo, hi) by {
                    if t == 1 {
                        assert(known(args[i].id, sc, lo, hi));
                    }
                }
                lemma_distinct_known(pair, sc, lo, hi);
            }
        } else if function == OR@ {
            let all = args.push(l0.negated());
            assert forall|t: int| 0 <= t < all.len() implies known((#[trigger] all[t]).id, sc, lo, hi) by {
                if t < args.len() {
                    assert(known(args[t].id, sc, lo, hi));
                }
            }
            lemma_distinct_known(all, sc, lo, hi);
        } else if function == IMPLICATION@ {
            let triple = seq![l0.negated(), args[0].negated(), args[1]];
            assert forall|t: int| 0 <= t < triple.len() implies known(
                (#[trigger] triple[t]).id,
                sc,
                lo,
                hi,
            ) by {
                assert(known(args[0].id, sc, lo, hi));
                assert(known(args[1].id, sc, lo, hi));
            }
            lemma_distinct_known(triple, sc, lo, hi);
        } else {
            assert(room(next, 3));
            let a = if function == EQUALITY@ {
                args[0]
            } else {
                args[0].negated()
            };
            let b = args[1];
            let back = fresh(next as int);
            let forth = fresh(next + 1);
            let l = fresh(next + 2);
            assert forall|d: int| 0 <= d < 3 implies known(#[trigger] fresh(next + d).id, sc, lo, hi) by {
                let id = fresh(next + d).id;
                assert(id == next + d);
                if below(id, lo) {
                    assert(below(id, next));
                }
            }
            assert(known(fresh(next + 0).id, sc, lo, hi));
            assert(known(fresh(next + 1).id, sc, lo, hi));
            assert(known(fresh(next + 2).id, sc, lo, hi));
            assert(known(args[0].id, sc, lo, hi));
            assert(known(args[1].id, sc, lo, hi));
            let c0 = seq![back.negated(), b.negated(), a];
            let c1 = seq![forth.negated(), a.negated(), b];
            let c2 = seq![l.negated(), forth];
            let c3 = seq![l.negated(), back];
            assert forall|t: int| 0 <= t < c0.len() implies known((#[trigger] c0[t]).id, sc, lo, hi) by {}
            assert forall|t: int| 0 <= t < c1.len() implies known((#[trigger] c1[t]).id, sc, lo, hi) by {}
            assert forall|t: int| 0 <= t < c2.len() implies known((#[trigger] c2[t]).id, sc, lo, hi) by {}
            assert forall|t: int| 0 <= t < c3.len() implies known((#[trigger] c3[t]).id, sc, lo, hi) by {}
            lemma_distinct_known(c0, sc, lo, hi);
            lemma_distinct_known(c1, sc, lo, hi);
            lemma_distinct_known(c2, sc, lo, hi);
            lemma_distinct_known(c3, sc, lo, hi);
            assert(g.2 == equality_clauses(l, forth, back, a, b));
        }
    }
}

/// A known identifier stays known when the scope and the range grow.
pub proof fn lemma_known_more(
    id: usize,
    sc: Seq<(Seq<char>, usize)>,
    lo: usize,
    hi: usize,
    more: Seq<(Seq<char>, usize)>,
    lo2: usize,
    hi2: usize,
)
    requires
        known(id, sc, lo, hi),
        sc.is_prefix_of(more),
        later(lo2, lo),
        later(hi, hi2),
    ensures
        known(id, more, lo2, hi2),
{
    if has_id(sc, id) {
        let k = choose|k: int| 0 <= k < sc.len() && (#[trigger] sc[k]).1 == id;
        assert(more[k].1 == id);
    } else {
        if below(id, lo2) {
            assert(below(id, lo));
        }
        assert(below(id, hi));
    }
}

/// How the compiler leaves the scope and the identifiers: names are only
/// entered, with fresh identifiers; and every literal that it emits or
/// returns is of a name or of a fresh identifier.
#[verifier::rlimit(40)]
pub proof fn lemma_compile_shape(t: Term, sc: Seq<(Seq<char>, usize)>, next: usize)
    requires
        scope_wf(sc, next),
    ensures
        grows(sc, compile(t, sc, next).scope, next),
        scope_wf(compile(t, sc, next).scope, compile(t, sc, next).next),
        later(next, compile(t, sc, next).next),
        all_known(
            compile(t, sc, next).clauses,
            compile(t, sc, next).scope,
            next,
            compile(t, sc, next).next,
        ),
        compile(t, sc, next).root matches Ok(root) ==> known(
            root.id,
            compile(t, sc, next).scope,
            next,
            compile(t, sc, next).next,
        ) && names_in(t, compile(t, sc, next).scope),
    decreases t,
{
    let c = compile(t, sc, next);
    match t {
        Term::Symbol(name) => {
            let r = resolve(name@, sc, next);
            if has_name(sc, name@) {
                let k = choose|k: int| 0 <= k < sc.len() && (#[trigger] sc[k]).0 == name@;
                assert(has_id(sc, sc[k].1));
            } else if next != 0 {
                let more = sc.push((name@, next));
                assert(more[sc.len() as int].0 == name@);
                assert(more[sc.len() as int].1 == next);
                assert forall|a: int, b: int| 0 <= a < b < more.len() implies (#[trigger] more[a]).0 != (
                #[trigger] more[b]).0 && more[a].1 != more[b].1 by {
                    if b < sc.len() {
                        assert(more[a] == sc[a] && more[b] == sc[b]);
                    } else {
                        assert(more[a] == sc[a]);
                        assert(below(sc[a].1, next));
                    }
                }
                assert forall|a: int| 0 <= a < more.len() implies below(
                    (#[trigger] more[a]).1,
                    bump(next, 1),
                ) by {
                    if a < sc.len() {
                        assert(more[a] == sc[a]);
                        assert(below(sc[a].1, next));
                    }
                }
                assert(has_id(more, next));
                assert(has_name(more, name@));
            }
            assert(later(next, c.next)) by {
                assert forall|id: usize| #[trigger] below(id, next) implies below(id, c.next) by {}
            }
        },
        Term::Application { function, arguments } => {
            let a = compile_all(arguments@, arguments@.len() as int, sc, next);
            lemma_compile_all_shape(arguments@, arguments@.len() as int, sc, next);
            match a.roots {
                Err(e) => {},
                Ok(roots) => {
                    let g = apply(function@, roots, a.next);
                    lemma_apply_shape(function@, roots, a.next, a.scope, next);
                    assert(scope_wf(a.scope, g.1)) by {
                        assert forall|k: int| 0 <= k < a.scope.len() implies below(
                            (#[trigger] a.scope[k]).1,
                            g.1,
                        ) by {
                            assert(below(a.scope[k].1, a.next));
                        }
                    }
                    assert(all_known(c.clauses, c.scope, next, c.next)) by {
                        assert forall|i: int, j: int|
                            0 <= i < c.clauses.len() && 0 <= j < c.clauses[i].len() implies known(
                            (#[trigger] c.clauses[i][j]).id,
                            c.scope,
                            next,
                            c.next,
                        ) by {
                            if i < a.clauses.len() {
                                assert(c.clauses[i] == a.clauses[i]);
                                assert(known(a.clauses[i][j].id, a.scope, next, a.next));
                                lemma_known_more(
                                    a.clauses[i][j].id,
                                    a.scope,
                                    next,
                                    a.next,
                                    c.scope,
                                    next,
                                    c.next,
                                );
                            } else {
                                assert(c.clauses[i] == g.2[i - a.clauses.len()]);
                                assert(known(g.2[i - a.clauses.len()][j].id, a.scope, next, g.1));
                            }
                        }
                    }
                },
            }
        },
        Term::Other => {
            assert(later(next, c.next)) by {
                assert forall|id: usize| #[trigger] below(id, next) implies below(id, c.next) by {}
            }
        },
    }
}

/// The same for the first `k` terms of `args`.
#[verifier::rlimit(40)]
pub proof fn lemma_compile_all_shape(args: Seq<Term>, k: int, sc: Seq<(Seq<char>, usize)>, next: usize)
    requires
        scope_wf(sc, next),
        0 <= k <= args.len(),
    ensures
        grows(sc, compile_all(args, k, sc, next).scope, next),
        scope_wf(compile_all(args, k, sc, next).scope, compile_all(args, k, sc, next).next),
        later(next, compile_all(args, k, sc, next).next),
        all_known(
            compile_all(args, k, sc, next).clauses,
            compile_all(args, k, sc, next).scope,
            next,
            compile_all(args, k, sc, next).next,
        ),
        compile_all(args, k, sc, next).roots matches Ok(roots) ==> roots.len() == k && all_names_in(
            args,
            k,
            compile_all(args, k, sc, next).scope,
        ) && forall|i: int|
            0 <= i < roots.len() ==> known(
                (#[trigger] roots[i]).id,
                compile_all(args, k, sc, next).scope,
                next,
                compile_all(args, k, sc, next).next,
            ),
    decreases args, k,
{
    let a = compile_all(args, k, sc, next);
    if k == 0 {
        assert(later(next, a.next)) by {
            assert forall|id: usize| #[trigger] below(id, next) implies below(id, a.next) by {}
        }
    } else {
        let front = compile_all(args, k - 1, sc, next);
        lemma_compile_all_shape(args, k - 1, sc, next);
        match front.roots {
            Err(e) => {},
            Ok(roots) => {
                let c = compile(args[k - 1], front.scope, front.next);
                lemma_compile_shape(args[k - 1], front.scope, front.next);
                assert(later(next, a.next)) by {
                    assert forall|id: usize| #[trigger] below(id, next) implies below(id, a.next) by {
                        assert(below(id, front.next));
                    }
                }
                assert(grows(sc, a.scope, next)) by {
                    assert forall|t: int| sc.len() <= t < a.scope.len() implies !below(
                        (#[trigger] a.scope[t]).1,
                        next,
                    ) by {
                        if t < front.scope.len() {
                            assert(a.scope[t] == front.scope[t]);
                        } else {
                            assert(!below(c.scope[t].1, front.next));
                            if below(a.scope[t].1, next) {
                                assert(below(a.scope[t].1, front.next));
                            }
                        }
                    }
                }
                assert(all_known(a.clauses, a.scope, next, a.next)) by {
                    assert forall|i: int, j: int|
                        0 <= i < a.clauses.len() && 0 <= j < a.clauses[i].len() implies known(
                        (#[trigger] a.clauses[i][j]).id,
                        a.scope,
                        next,
                        a.next,
                    ) by {
                        if i < front.clauses.len() {
                            assert(a.clauses[i] == front.clauses[i]);
                            assert(known(front.clauses[i][j].id, front.scope, next, front.next));
                            lemma_known_more(
                                front.clauses[i][j].id,
                                front.scope,
                                next,
                                front.next,
                                a.scope,
                                next,
                                a.next,
                            );
                        } else {
                            let x = c.clauses[i - front.clauses.len()][j];
                            assert(a.clauses[i] == c.clauses[i - front.clauses.len()]);
                            assert(known(x.id, c.scope, front.next, c.next));
                            lemma_known_more(x.id, c.scope, front.next, c.next, a.scope, next, a.next);
                        }
                    }
                }
                match c.root {
                    Err(e) => {},
                    Ok(l) => {
                        let all = roots.push(l);
                        assert forall|i: int| 0 <= i < all.len() implies known(
                            (#[trigger] all[i]).id,
                            a.scope,
                            next,
                            a.next,
                        ) by {
                            if i < roots.len() {
                                assert(all[i] == roots[i]);
                                assert(known(roots[i].id, front.scope, next, front.next));
                                lemma_known_more(
                                    roots[i].id,
                                    front.scope,
                                    next,
                                    front.next,
                                    a.scope,
                                    next,
                                    a.next,
                                );
                            } else {
                                lemma_known_more(l.id, c.scope, front.next, c.next, a.scope, next, a.next);
                            }
                        }
                        lemma_values_stable(
                            args,
                            k - 1,
                            front.scope,
                            a.scope,
                            a.next,
                            Map::empty(),
                            Map::empty(),
                        );
                    },
                }
            },
        }
    }
}


/// A clause without repetitions is true where the clause is.
pub proof fn lemma_clause_distinct(m: Map<usize, bool>, s: Seq<Literal>)
    ensures
        clause_true(m, distinct(s)) <==> clause_true(m, s),
{
    lemma_distinct(s);
    let d = distinct(s);
    if clause_true(m, d) {
        let j = choose|j: int| 0 <= j < d.len() && lit_true(m, #[trigger] d[j]);
        assert(d.contains(d[j]));
        assert(s.contains(d[j]));
        let t = choose|t: int| 0 <= t < s.len() && s[t] == d[j];
        assert(lit_true(m, s[t]));
    }
    if clause_true(m, s) {
        let j = choose|j: int| 0 <= j < s.len() && lit_true(m, #[trigger] s[j]);
        assert(s.contains(s[j]));
        assert(d.contains(s[j]));
        let t = choose|t: int| 0 <= t < d.len() && d[t] == s[j];
        assert(lit_true(m, d[t]));
    }
}

/// `m2` has the values of `m` at the names of `sc` and at every identifier
/// that was not issued from `lo` on and before `hi`.
pub open spec fn same_outside(
    m: Map<usize, bool>,
    m2: Map<usize, bool>,
    sc: Seq<(Seq<char>, usize)>,
    lo: usize,
    hi: usize,
) -> bool {
    forall|id: usize| has_id(sc, id) || below(id, lo) || !below(id, hi) ==> #[trigger] m2[id] == m[id]
}

/// Clauses of known identifiers are satisfied by every valuation that has
/// the values of one that satisfies them, at the identifiers issued before
/// `hi`.
proof fn lemma_keep(
    m1: Map<usize, bool>,
    m2: Map<usize, bool>,
    f: Seq<Seq<Literal>>,
    hi: usize,
)
    requires
        total(m1),
        total(m2),
        models(m1, f),
        forall|i: int, j: int| 0 <= i < f.len() && 0 <= j < f[i].len() ==> below((#[trigger] f[i][j]).id, hi),
        forall|id: usize| below(id, hi) ==> #[trigger] m2[id] == m1[id],
    ensures
        models(m2, f),
{
    assert forall|i: int| 0 <= i < f.len() implies clause_true(m2, #[trigger] f[i]) by {
        assert(clause_true(m1, f[i]));
        let j = choose|j: int| 0 <= j < f[i].len() && lit_true(m1, #[trigger] f[i][j]);
        assert(below(f[i][j].id, hi));
        assert(m2[f[i][j].id] == m1[f[i][j].id]);
        assert(m2.contains_key(f[i][j].id));
        assert(lit_true(m2, f[i][j]));
    }
}

/// The literal of a connective can be given the value of the connective:
/// a valuation under which the arguments have the values `v` has an
/// extension to the fresh identifiers that satisfies the emitted clauses
/// and gives the returned literal the value of the connective on `v`.
#[verifier::rlimit(40)]
pub proof fn lemma_apply_complete(
    function: Seq<char>,
    args: Seq<Literal>,
    next: usize,
    m1: Map<usize, bool>,
    v: Seq<bool>,
) -> (m2: Map<usize, bool>)
    requires
        total(m1),
        apply(function, args, next).0 is Ok,
        v.len() == args.len(),
        forall|i: int| 0 <= i < args.len() ==> below((#[trigger] args[i]).id, next),
        forall|i: int| 0 <= i < args.len() ==> (lit_true(m1, #[trigger] args[i]) <==> v[i]),
    ensures
        total(m2),
        forall|id: usize| below(id, next) || !below(id, apply(function, args, next).1) ==> #[trigger] m2[id]
            == m1[id],
        models(m2, apply(function, args, next).2),
        lit_true(m2, apply(function, args, next).0->Ok_0) <==> truth(function, v),
{
    let g = apply(function, args, next);
    let root = g.0->Ok_0;
    if function == NOT@ {
        assert(m1.contains_key(args[0].id));
        m1
    } else if function == AND@ || function == OR@ || function == IMPLICATION@ {
        assert(room(next, 1));
        let l = fresh(next as int);
        let m2 = m1.insert(l.id, truth(function, v));
        assert(total(m2)) by {
            assert forall|id: usize| #[trigger] m2.contains_key(id) by {
                assert(m1.contains_key(id));
            }
        }
        assert forall|i: int| 0 <= i < args.len() implies (lit_true(m2, #[trigger] args[i]) <==> v[i]) by {
            assert(below(args[i].id, next));
            assert(lit_true(m1, args[i]) <==> v[i]);
        }
        assert(lit_true(m2, l.negated()) <==> !truth(function, v));
        if function == AND@ {
            assert forall|i: int| 0 <= i < g.2.len() implies clause_true(m2, #[trigger] g.2[i]) by {
                let pair = seq![l.negated(), args[i]];
                lemma_clause_distinct(m2, pair);
                if truth(function, v) {
                    assert(lit_true(m2, pair[1]));
                } else {
                    assert(lit_true(m2, pair[0]));
                }
            }
        } else if function == OR@ {
            let all = args.push(l.negated());
            lemma_clause_distinct(m2, all);
            if truth(function, v) {
                if v[0] {
                    assert(lit_true(m2, all[0]));
                } else {
                    assert(lit_true(m2, all[1]));
                }
            } else {
                assert(lit_true(m2, all[2]));
            }
            assert(g.2[0] == distinct(all));
        } else {
            let triple = seq![l.negated(), args[0].negated(), args[1]];
            lemma_clause_distinct(m2, triple);
            assert(m2.contains_key(args[0].id));
            if truth(function, v) {
                if v[1] {
                    assert(lit_true(m2, triple[2]));
                } else {
                    assert(lit_true(m2, triple[1]));
                }
            } else {
                assert(lit_true(m2, triple[0]));
            }
            assert(g.2[0] == distinct(triple));
        }
        m2
    } else {
        assert(room(next, 3));
        let a = if function == EQUALITY@ {
            args[0]
        } else {
            args[0].negated()
        };
        let b = args[1];
        let back = fresh(next as int);
        let forth = fresh(next + 1);
        let l = fresh(next + 2);
        assert(m1.contains_key(args[0].id) && m1.contains_key(args[1].id));
        let va = lit_true(m1, a);
        let vb = lit_true(m1, b);
        let m2 = m1.insert(back.id, !vb || va).insert(forth.id, !va || vb).insert(l.id, va == vb);
        assert(total(m2)) by {
            assert forall|id: usize| #[trigger] m2.contains_key(id) by {
                assert(m1.contains_key(id));
            }
        }
        assert(below(args[0].id, next) && below(args[1].id, next));
        assert(lit_true(m2, a) == va && lit_true(m2, b) == vb);
        assert(lit_true(m2, a.negated()) == !va && lit_true(m2, b.negated()) == !vb);
        assert(lit_true(m2, back) == (!vb || va));
        assert(lit_true(m2, forth) == (!va || vb));
        assert(lit_true(m2, l) == (va == vb));
        let c0 = seq![back.negated(), b.negated(), a];
        let c1 = seq![forth.negated(), a.negated(), b];
        let c2 = seq![l.negated(), forth];
        let c3 = seq![l.negated(), back];
        lemma_clause_distinct(m2, c0);
        lemma_clause_distinct(m2, c1);
        lemma_clause_distinct(m2, c2);
        lemma_clause_distinct(m2, c3);
        assert(clause_true(m2, c0)) by {
            if !(!vb || va) {
                assert(lit_true(m2, c0[0]));
            } else if !vb {
                assert(lit_true(m2, c0[1]));
            } else {
                assert(lit_true(m2, c0[2]));
            }
        }
        assert(clause_true(m2, c1)) by {
            if !(!va || vb) {
                assert(lit_true(m2, c1[0]));
            } else if !va {
                assert(lit_true(m2, c1[1]));
            } else {
                assert(lit_true(m2, c1[2]));
            }
        }
        assert(clause_true(m2, c2)) by {
            if va == vb {
                assert(lit_true(m2, c2[1]));
            } else {
                assert(lit_true(m2, c2[0]));
            }
        }
        assert(clause_true(m2, c3)) by {
            if va == vb {
                assert(lit_true(m2, c3[1]));
            } else {
                assert(lit_true(m2, c3[0]));
            }
        }
        assert(g.2 == equality_clauses(l, forth, back, a, b));
        assert forall|i: int| 0 <= i < g.2.len() implies clause_true(m2, #[trigger] g.2[i]) by {}
        m2
    }
}


/// Every valuation of the names extends to the compiler's literals: the
/// extension satisfies the emitted clauses and gives the returned literal
/// the value of the term.
#[verifier::rlimit(40)]
pub proof fn lemma_compile_complete(t: Term, sc: Seq<(Seq<char>, usize)>, next: usize, m: Map<usize, bool>) -> (m2:
    Map<usize, bool>)
    requires
        scope_wf(sc, next),
        total(m),
        compile(t, sc, next).root is Ok,
    ensures
        total(m2),
        same_outside(m, m2, compile(t, sc, next).scope, next, compile(t, sc, next).next),
        models(m2, compile(t, sc, next).clauses),
        lit_true(m2, compile(t, sc, next).root->Ok_0) <==> value(t, compile(t, sc, next).scope, m),
    decreases t,
{
    let c = compile(t, sc, next);
    lemma_compile_shape(t, sc, next);
    match t {
        Term::Symbol(name) => {
            let r = resolve(name@, sc, next);
            let id = r.0->Ok_0;
            assert(m.contains_key(id));
            if has_name(sc, name@) {
                assert(id == id_of(sc, name@));
            } else {
                let more = sc.push((name@, next));
                assert(more[sc.len() as int].0 == name@);
                let k = choose|k: int| 0 <= k < more.len() && (#[trigger] more[k]).0 == name@;
                if k < sc.len() {
                    assert(sc[k].0 == name@);
                }
                assert(id_of(more, name@) == next);
            }
            m
        },
        Term::Application { function, arguments } => {
            let n = arguments@.len() as int;
            let a = compile_all(arguments@, n, sc, next);
            let roots = a.roots->Ok_0;
            let m1 = lemma_compile_all_complete(arguments@, n, sc, next, m);
            lemma_compile_all_shape(arguments@, n, sc, next);
            let v = values(arguments@, n, a.scope, m);
            lemma_values_stable(arguments@, n, a.scope, a.scope, a.next, m, m);
            let g = apply(function@, roots, a.next);
            assert forall|i: int| 0 <= i < roots.len() implies below((#[trigger] roots[i]).id, a.next) by {
                assert(known(roots[i].id, a.scope, next, a.next));
                if has_id(a.scope, roots[i].id) {
                    let k = choose|k: int| 0 <= k < a.scope.len() && (#[trigger] a.scope[k]).1 == roots[i].id;
                    assert(below(a.scope[k].1, a.next));
                }
            }
            let m2 = lemma_apply_complete(function@, roots, a.next, m1, v);
            lemma_apply_shape(function@, roots, a.next, a.scope, next);
            assert forall|i: int, j: int|
                0 <= i < a.clauses.len() && 0 <= j < a.clauses[i].len() implies below(
                (#[trigger] a.clauses[i][j]).id,
                a.next,
            ) by {
                assert(known(a.clauses[i][j].id, a.scope, next, a.next));
                if has_id(a.scope, a.clauses[i][j].id) {
                    let k = choose|k: int|
                        0 <= k < a.scope.len() && (#[trigger] a.scope[k]).1 == a.clauses[i][j].id;
                    assert(below(a.scope[k].1, a.next));
                }
            }
            lemma_keep(m1, m2, a.clauses, a.next);
            assert(models(m2, c.clauses)) by {
                assert forall|i: int| 0 <= i < c.clauses.len() implies clause_true(
                    m2,
                    #[trigger] c.clauses[i],
                ) by {
                    if i < a.clauses.len() {
                        assert(c.clauses[i] == a.clauses[i]);
                    } else {
                        assert(c.clauses[i] == g.2[i - a.clauses.len()]);
                    }
                }
            }
            assert(same_outside(m, m2, c.scope, next, c.next)) by {
                assert forall|id: usize| has_id(c.scope, id) || below(id, next) || !below(id, c.next) implies #[trigger] m2[id]
                    == m[id] by {
                    if has_id(c.scope, id) {
                        let k = choose|k: int| 0 <= k < a.scope.len() && (#[trigger] a.scope[k]).1 == id;
                        assert(below(a.scope[k].1, a.next));
                    }
                    if below(id, next) {
                        assert(below(id, a.next));
                    }
                    if !below(id, c.next) {
                        if below(id, a.next) {
                            assert(below(id, g.1));
                        }
                    }
                    assert(m2[id] == m1[id]);
                    assert(m1[id] == m[id]);
                }
            }
            m2
        },
        Term::Other => m,
    }
}

/// The same for the first `k` terms of `args`.
#[verifier::rlimit(40)]
pub proof fn lemma_compile_all_complete(
    args: Seq<Term>,
    k: int,
    sc: Seq<(Seq<char>, usize)>,
    next: usize,
    m: Map<usize, bool>,
) -> (m2: Map<usize, bool>)
    requires
        scope_wf(sc, next),
        total(m),
        0 <= k <= args.len(),
        compile_all(args, k, sc, next).roots is Ok,
    ensures
        total(m2),
        same_outside(m, m2, compile_all(args, k, sc, next).scope, next, compile_all(args, k, sc, next).next),
        models(m2, compile_all(args, k, sc, next).clauses),
        forall|i: int|
            0 <= i < k ==> (lit_true(m2, #[trigger] (compile_all(args, k, sc, next).roots->Ok_0)[i]) <==> values(
                args,
                k,
                compile_all(args, k, sc, next).scope,
                m,
            )[i]),
    decreases args, k,
{
    let a = compile_all(args, k, sc, next);
    if k == 0 {
        m
    } else {
        let front = compile_all(args, k - 1, sc, next);
        let roots = front.roots->Ok_0;
        let m1 = lemma_compile_all_complete(args, k - 1, sc, next, m);
        lemma_compile_all_shape(args, k - 1, sc, next);
        lemma_compile_all_shape(args, k, sc, next);
        let c = compile(args[k - 1], front.scope, front.next);
        let l = c.root->Ok_0;
        let m2 = lemma_compile_complete(args[k - 1], front.scope, front.next, m1);
        lemma_compile_shape(args[k - 1], front.scope, front.next);
        // m2 has the values of m1 at what was known before
        assert forall|id: usize| known(id, front.scope, next, front.next) implies #[trigger] m2[id]
            == m1[id] by {
            if has_id(front.scope, id) {
                let t = choose|t: int| 0 <= t < front.scope.len() && (#[trigger] front.scope[t]).1 == id;
                assert(c.scope[t].1 == id);
                assert(has_id(c.scope, id));
            }
        }
        // m1 has the values of m at the names
        assert forall|id: usize| has_id(c.scope, id) implies #[trigger] m1[id] == m[id] by {
            let t = choose|t: int| 0 <= t < c.scope.len() && (#[trigger] c.scope[t]).1 == id;
            if t < front.scope.len() {
                assert(front.scope[t] == c.scope[t]);
                assert(has_id(front.scope, id));
            } else {
                assert(!below(c.scope[t].1, front.next));
            }
        }
        assert(same_outside(m, m2, a.scope, next, a.next)) by {
            assert forall|id: usize| has_id(a.scope, id) || below(id, next) || !below(id, a.next) implies #[trigger] m2[id]
                == m[id] by {
                if below(id, next) {
                    assert(below(id, front.next));
                }
                if !below(id, a.next) {
                    if below(id, front.next) {
                        assert(below(id, c.next));
                    }
                }
                assert(m2[id] == m1[id]);
                if has_id(a.scope, id) {
                    assert(m1[id] == m[id]);
                } else {
                    assert(m1[id] == m[id]);
                }
            }
        }
        assert(models(m2, a.clauses)) by {
            assert forall|i: int| 0 <= i < a.clauses.len() implies clause_true(m2, #[trigger] a.clauses[i]) by {
                if i < front.clauses.len() {
                    assert(a.clauses[i] == front.clauses[i]);
                    assert(clause_true(m1, front.clauses[i]));
                    let j = choose|j: int|
                        0 <= j < front.clauses[i].len() && lit_true(m1, #[trigger] front.clauses[i][j]);
                    let x = front.clauses[i][j];
                    assert(known(x.id, front.scope, next, front.next));
                    assert(m2[x.id] == m1[x.id]);
                    assert(m2.contains_key(x.id));
                    assert(lit_true(m2, a.clauses[i][j]));
                } else {
                    assert(a.clauses[i] == c.clauses[i - front.clauses.len()]);
                }
            }
        }
        let all = a.roots->Ok_0;
        assert(all == roots.push(l));
        lemma_values_stable(args, k - 1, front.scope, a.scope, a.next, m, m);
        lemma_value_stable(args[k - 1], c.scope, c.scope, c.next, m1, m);
        assert forall|i: int| 0 <= i < k implies (lit_true(m2, #[trigger] all[i]) <==> values(
            args,
            k,
            a.scope,
            m,
        )[i]) by {
            if i < k - 1 {
                assert(all[i] == roots[i]);
                assert(known(roots[i].id, front.scope, next, front.next));
                assert(m2[roots[i].id] == m1[roots[i].id]);
                assert(m2.contains_key(roots[i].id) && m1.contains_key(roots[i].id));
                assert(lit_true(m1, roots[i]) <==> values(args, k - 1, front.scope, m)[i]);
            } else {
                assert(all[i] == l);
            }
        }
        m2
    }
}


/// Whether the term at place `i` of `args` is a name under negations.
pub open spec fn exact_at(args: Seq<Term>, i: int) -> bool
    decreases args, i,
{
    if 0 <= i < args.len() {
        exact(args[i])
    } else {
        false
    }
}

/// A name, or the negation of such a term: the compiler's literal for it
/// has its value whatever the clauses.
pub open spec fn exact(t: Term) -> bool
    decreases t,
{
    match t {
        Term::Symbol(name) => true,
        Term::Application { function, arguments } => function@ == NOT@ && arguments@.len() == 1
            && exact_at(arguments@, 0),
        Term::Other => false,
    }
}

/// Whether the term at place `i` of `args` is positive.
pub open spec fn positive_at(args: Seq<Term>, i: int) -> bool
    decreases args, i,
{
    if 0 <= i < args.len() {
        positive(args[i])
    } else {
        false
    }
}

/// A term whose literal is needed to imply it, and is held to that by the
/// clauses: a name; a conjunction or disjunction of such terms; the
/// negation of a term that implies its literal; an implication from a
/// term that implies its literal to a term of this kind; an equality or
/// exclusive disjunction of names under negations.
pub open spec fn positive(t: Term) -> bool
    decreases t,
{
    match t {
        Term::Symbol(name) => true,
        Term::Application { function, arguments } => {
            if function@ == NOT@ {
                arguments@.len() == 1 && negative_at(arguments@, 0)
            } else if arguments@.len() != 2 {
                false
            } else if function@ == AND@ || function@ == OR@ {
                positive_at(arguments@, 0) && positive_at(arguments@, 1)
            } else if function@ == IMPLICATION@ {
                negative_at(arguments@, 0) && positive_at(arguments@, 1)
            } else if function@ == EQUALITY@ || function@ == XOR@ {
                exact_at(arguments@, 0) && exact_at(arguments@, 1)
            } else {
                false
            }
        },
        Term::Other => false,
    }
}

/// Whether the term at place `i` of `args` implies its literal.
pub open spec fn negative_at(args: Seq<Term>, i: int) -> bool
    decreases args, i,
{
    if 0 <= i < args.len() {
        negative(args[i])
    } else {
        false
    }
}

/// A term that implies its literal, as is needed under a negation and on
/// the left of an implication: a name, or the negation of a positive term.
/// A connective that draws a fresh literal is none: its clauses let the
/// literal be false where the term is true.
pub open spec fn negative(t: Term) -> bool
    decreases t,
{
    match t {
        Term::Symbol(name) => true,
        Term::Application { function, arguments } => function@ == NOT@ && arguments@.len() == 1
            && positive_at(arguments@, 0),
        Term::Other => false,
    }
}

/// Compiling one argument is compiling it.
proof fn lemma_compile_one(args: Seq<Term>, sc: Seq<(Seq<char>, usize)>, next: usize, m: Map<usize, bool>)
    requires
        args.len() >= 1,
    ensures
        compile_all(args, 1, sc, next).scope == compile(args[0], sc, next).scope,
        compile_all(args, 1, sc, next).next == compile(args[0], sc, next).next,
        compile_all(args, 1, sc, next).clauses == compile(args[0], sc, next).clauses,
        compile_all(args, 1, sc, next).roots == match compile(args[0], sc, next).root {
            Ok(l) => Ok::<Seq<Literal>, Error>(seq![l]),
            Err(e) => Err::<Seq<Literal>, Error>(e),
        },
        forall|sc2: Seq<(Seq<char>, usize)>| #[trigger]
            values(args, 1, sc2, m) == seq![value(args[0], sc2, m)],
{
    let zero = compile_all(args, 0, sc, next);
    assert(zero.roots == Ok::<Seq<Literal>, Error>(Seq::empty()));
    let c = compile(args[0], sc, next);
    assert(zero.clauses + c.clauses =~= c.clauses);
    match c.root {
        Ok(l) => {
            assert(Seq::<Literal>::empty().push(l) =~= seq![l]);
        },
        Err(e) => {},
    }
    assert forall|sc2: Seq<(Seq<char>, usize)>| #[trigger]
        values(args, 1, sc2, m) == seq![value(args[0], sc2, m)] by {
        assert(values(args, 0, sc2, m) =~= Seq::empty());
        assert(values(args, 1, sc2, m) =~= seq![value(args[0], sc2, m)]);
    }
}

/// The literal of a name under negations has the value of the term, and
/// no clause is emitted for it.
pub proof fn lemma_compile_exact(t: Term, sc: Seq<(Seq<char>, usize)>, next: usize, m: Map<usize, bool>)
    requires
        scope_wf(sc, next),
        total(m),
        exact(t),
        compile(t, sc, next).root is Ok,
    ensures
        compile(t, sc, next).clauses.len() == 0,
        lit_true(m, compile(t, sc, next).root->Ok_0) <==> value(t, compile(t, sc, next).scope, m),
    decreases t,
{
    let c = compile(t, sc, next);
    match t {
        Term::Symbol(name) => {
            let r = resolve(name@, sc, next);
            let id = r.0->Ok_0;
            assert(m.contains_key(id));
            if has_name(sc, name@) {
                assert(id == id_of(sc, name@));
            } else {
                let more = sc.push((name@, next));
                assert(more[sc.len() as int].0 == name@);
                let k = choose|k: int| 0 <= k < more.len() && (#[trigger] more[k]).0 == name@;
                if k < sc.len() {
                    assert(sc[k].0 == name@);
                }
                assert(id_of(more, name@) == next);
            }
        },
        Term::Application { function, arguments } => {
            let args = arguments@;
            lemma_compile_one(args, sc, next, m);
            let inner = compile(args[0], sc, next);
            lemma_compile_exact(args[0], sc, next, m);
            let l = inner.root->Ok_0;
            assert(compile_all(args, 1, sc, next).roots == Ok::<Seq<Literal>, Error>(seq![l]));
            assert(apply(function@, seq![l], inner.next).0 == Ok::<Literal, Error>(l.negated()));
            assert(c.clauses =~= inner.clauses);
            assert(m.contains_key(l.id));
            assert(values(args, 1, c.scope, m) == seq![value(args[0], c.scope, m)]);
        },
        Term::Other => {},
    }
}

/// What the clauses hold the literal to, by the polarity of the term.
/// Where the clauses hold: the literal of a positive term is true only if
/// the term is, and the literal of a term that is to imply it is true if
/// the term is.
#[verifier::rlimit(60)]
pub proof fn lemma_compile_polar(t: Term, sc: Seq<(Seq<char>, usize)>, next: usize, m: Map<usize, bool>)
    requires
        scope_wf(sc, next),
        total(m),
        compile(t, sc, next).root is Ok,
        models(m, compile(t, sc, next).clauses),
    ensures
        positive(t) && lit_true(m, compile(t, sc, next).root->Ok_0) ==> value(
            t,
            compile(t, sc, next).scope,
            m,
        ),
        negative(t) && value(t, compile(t, sc, next).scope, m) ==> lit_true(
            m,
            compile(t, sc, next).root->Ok_0,
        ),
    decreases t,
{
    let c = compile(t, sc, next);
    match t {
        Term::Symbol(name) => {
            lemma_compile_exact(t, sc, next, m);
        },
        Term::Application { function, arguments } => {
            let args = arguments@;
            if function@ == NOT@ {
                if args.len() == 1 {
                    lemma_compile_one(args, sc, next, m);
                    let inner = compile(args[0], sc, next);
                    let l = inner.root->Ok_0;
                    assert(compile_all(args, 1, sc, next).roots == Ok::<Seq<Literal>, Error>(seq![l]));
                    assert(apply(function@, seq![l], inner.next).0 == Ok::<Literal, Error>(l.negated()));
                    assert(c.clauses =~= inner.clauses);
                    lemma_compile_shape(args[0], sc, next);
                    assert(known(l.id, inner.scope, next, inner.next));
                    assert(m.contains_key(l.id));
                    assert(values(args, 1, c.scope, m) == seq![value(args[0], c.scope, m)]);
                    lemma_compile_polar(args[0], sc, next, m);
                    assert(value(t, c.scope, m) == !value(args[0], inner.scope, m));
                    assert(lit_true(m, c.root->Ok_0) == !lit_true(m, l));
                }
            } else if positive(t) && lit_true(m, c.root->Ok_0) {
                // two arguments
                lemma_compile_one(args, sc, next, m);
                let c0 = compile(args[0], sc, next);
                let one = compile_all(args, 1, sc, next);
                let two = compile_all(args, 2, sc, next);
                assert(two.roots is Ok);
                assert(one.roots is Ok);
                let l0 = c0.root->Ok_0;
                let c1 = compile(args[1], c0.scope, c0.next);
                let l1 = c1.root->Ok_0;
                assert(two.roots == Ok::<Seq<Literal>, Error>(seq![l0].push(l1)));
                let roots = seq![l0].push(l1);
                assert(roots[0] == l0 && roots[1] == l1);
                let g = apply(function@, roots, c1.next);
                let root = g.0->Ok_0;
                assert(c.clauses == c0.clauses + c1.clauses + g.2);
                assert(models(m, c0.clauses)) by {
                    assert forall|i: int| 0 <= i < c0.clauses.len() implies clause_true(
                        m,
                        #[trigger] c0.clauses[i],
                    ) by {
                        assert(c.clauses[i] == c0.clauses[i]);
                    }
                }
                assert(models(m, c1.clauses)) by {
                    assert forall|i: int| 0 <= i < c1.clauses.len() implies clause_true(
                        m,
                        #[trigger] c1.clauses[i],
                    ) by {
                        assert(c.clauses[c0.clauses.len() + i] == c1.clauses[i]);
                    }
                }
                assert(models(m, g.2)) by {
                    assert forall|i: int| 0 <= i < g.2.len() implies clause_true(m, #[trigger] g.2[i]) by {
                        assert(c.clauses[c0.clauses.len() + c1.clauses.len() + i] == g.2[i]);
                    }
                }
                lemma_compile_shape(args[0], sc, next);
                lemma_compile_shape(args[1], c0.scope, c0.next);
                // the values of the arguments in the last scope
                lemma_value_stable(args[0], c0.scope, c1.scope, c1.next, m, m);
                assert(values(args, 2, c.scope, m) =~= seq![
                    value(args[0], c.scope, m),
                    value(args[1], c.scope, m),
                ]) by {
                    assert(values(args, 1, c.scope, m) == seq![value(args[0], c.scope, m)]);
                }
                assert(m.contains_key(l0.id) && m.contains_key(l1.id));
                let l = fresh(c1.next as int);
                if function@ == AND@ {
                    let left = seq![l.negated(), l0];
                    let right = seq![l.negated(), l1];
                    assert(g.2[0] == distinct(left) && g.2[1] == distinct(right));
                    lemma_clause_distinct(m, left);
                    lemma_clause_distinct(m, right);
                    assert(clause_true(m, g.2[0]) && clause_true(m, g.2[1]));
                    assert(lit_true(m, l0)) by {
                        let j = choose|j: int| 0 <= j < left.len() && lit_true(m, #[trigger] left[j]);
                    }
                    assert(lit_true(m, l1)) by {
                        let j = choose|j: int| 0 <= j < right.len() && lit_true(m, #[trigger] right[j]);
                    }
                    lemma_compile_polar(args[0], sc, next, m);
                    lemma_compile_polar(args[1], c0.scope, c0.next, m);
                } else if function@ == OR@ {
                    let all = roots.push(l.negated());
                    assert(g.2[0] == distinct(all));
                    lemma_clause_distinct(m, all);
                    assert(clause_true(m, g.2[0]));
                    let j = choose|j: int| 0 <= j < all.len() && lit_true(m, #[trigger] all[j]);
                    if j == 0 {
                        lemma_compile_polar(args[0], sc, next, m);
                    } else {
                        assert(j == 1);
                        lemma_compile_polar(args[1], c0.scope, c0.next, m);
                    }
                } else if function@ == IMPLICATION@ {
                    let triple = seq![l.negated(), l0.negated(), l1];
                    assert(g.2[0] == distinct(triple));
                    lemma_clause_distinct(m, triple);
                    assert(clause_true(m, g.2[0]));
                    let j = choose|j: int| 0 <= j < triple.len() && lit_true(m, #[trigger] triple[j]);
                    lemma_compile_polar(args[0], sc, next, m);
                    if j == 2 {
                        lemma_compile_polar(args[1], c0.scope, c0.next, m);
                    }
                } else {
                    let a = if function@ == EQUALITY@ {
                        l0
                    } else {
                        l0.negated()
                    };
                    let b = l1;
                    let back = fresh(c1.next as int);
                    let forth = fresh(c1.next + 1);
                    let top = fresh(c1.next + 2);
                    assert(g.2 == equality_clauses(top, forth, back, a, b));
                    let k0 = seq![back.negated(), b.negated(), a];
                    let k1 = seq![forth.negated(), a.negated(), b];
                    let k2 = seq![top.negated(), forth];
                    let k3 = seq![top.negated(), back];
                    assert(g.2[0] == distinct(k0) && g.2[1] == distinct(k1) && g.2[2] == distinct(k2)
                        && g.2[3] == distinct(k3));
                    lemma_clause_distinct(m, k0);
                    lemma_clause_distinct(m, k1);
                    lemma_clause_distinct(m, k2);
                    lemma_clause_distinct(m, k3);
                    assert(clause_true(m, g.2[0]) && clause_true(m, g.2[1]) && clause_true(m, g.2[2])
                        && clause_true(m, g.2[3]));
                    assert(lit_true(m, forth)) by {
                        let j = choose|j: int| 0 <= j < k2.len() && lit_true(m, #[trigger] k2[j]);
                    }
                    assert(lit_true(m, back)) by {
                        let j = choose|j: int| 0 <= j < k3.len() && lit_true(m, #[trigger] k3[j]);
                    }
                    assert(lit_true(m, a) ==> lit_true(m, b)) by {
                        let j = choose|j: int| 0 <= j < k1.len() && lit_true(m, #[trigger] k1[j]);
                    }
                    assert(lit_true(m, b) ==> lit_true(m, a)) by {
                        let j = choose|j: int| 0 <= j < k0.len() && lit_true(m, #[trigger] k0[j]);
                    }
                    lemma_compile_exact(args[0], sc, next, m);
                    lemma_compile_exact(args[1], c0.scope, c0.next, m);
                }
            }
        },
        Term::Other => {},
    }
}

/// Where the clauses hold and the literal of a positive term is true, the
/// term is true.
pub proof fn lemma_compile_sound(t: Term, sc: Seq<(Seq<char>, usize)>, next: usize, m: Map<usize, bool>)
    requires
        scope_wf(sc, next),
        total(m),
        positive(t),
        compile(t, sc, next).root is Ok,
        models(m, compile(t, sc, next).clauses),
        lit_true(m, compile(t, sc, next).root->Ok_0),
    ensures
        value(t, compile(t, sc, next).scope, m),
{
    lemma_compile_polar(t, sc, next, m);
}

/// A term that compiles and that some valuation makes true has clauses
/// that can be satisfied together with the unit clause of its literal.
pub proof fn lemma_tseitin_complete(t: Term, sc: Seq<(Seq<char>, usize)>, next: usize, m: Map<usize, bool>)
    requires
        scope_wf(sc, next),
        total(m),
        compile(t, sc, next).root is Ok,
        value(t, compile(t, sc, next).scope, m),
    ensures
        satisfiable(compile(t, sc, next).clauses.push(seq![compile(t, sc, next).root->Ok_0])),
{
    let c = compile(t, sc, next);
    let root = c.root->Ok_0;
    let m2 = lemma_compile_complete(t, sc, next, m);
    let f = c.clauses.push(seq![root]);
    assert forall|i: int| 0 <= i < f.len() implies clause_true(m2, #[trigger] f[i]) by {
        if i < c.clauses.len() {
            assert(f[i] == c.clauses[i]);
        } else {
            assert(lit_true(m2, f[i][0]));
        }
    }
    assert(models(m2, f));
}

/// The compiled clauses and the unit clause of the literal can be
/// satisfied exactly if the term can, for every positive term that
/// compiles.
pub proof fn lemma_tseitin(t: Term, sc: Seq<(Seq<char>, usize)>, next: usize)
    requires
        scope_wf(sc, next),
        positive(t),
        compile(t, sc, next).root is Ok,
    ensures
        satisfiable(compile(t, sc, next).clauses.push(seq![compile(t, sc, next).root->Ok_0])) <==> exists|
            m: Map<usize, bool>,
        |
            total(m) && #[trigger] value(t, compile(t, sc, next).scope, m),
{
    let c = compile(t, sc, next);
    let root = c.root->Ok_0;
    let f = c.clauses.push(seq![root]);
    if satisfiable(f) {
        let m0 = choose|m: Map<usize, bool>| models(m, f);
        crate::model::lemma_completion(m0, f);
        let m = crate::model::completion(m0);
        assert(models(m, c.clauses)) by {
            assert forall|i: int| 0 <= i < c.clauses.len() implies clause_true(m, #[trigger] c.clauses[i]) by {
                assert(f[i] == c.clauses[i]);
            }
        }
        assert(clause_true(m, f[c.clauses.len() as int]));
        assert(lit_true(m, root)) by {
            let u = f[c.clauses.len() as int];
            let j = choose|j: int| 0 <= j < u.len() && lit_true(m, #[trigger] u[j]);
        }
        lemma_compile_sound(t, sc, next, m);
        assert(total(m) && value(t, c.scope, m));
    }
    if exists|m: Map<usize, bool>| total(m) && #[trigger] value(t, c.scope, m) {
        let m = choose|m: Map<usize, bool>| total(m) && #[trigger] value(t, c.scope, m);
        lemma_tseitin_complete(t, sc, next, m);
    }
}

/// What the clauses of an equality ask: a valuation that satisfies them
/// and makes the literal `l` true gives `a` and `b` the same value. With
/// the negation of a literal for `a`, this is the law of the exclusive
/// disjunction: the two then have different values.
pub proof fn lemma_equality_sound(
    l: Literal,
    forward: Literal,
    backward: Literal,
    a: Literal,
    b: Literal,
    m: Map<usize, bool>,
)
    requires
        total(m),
        models(m, equality_clauses(l, forward, backward, a, b)),
        lit_true(m, l),
    ensures
        lit_true(m, a) <==> lit_true(m, b),
{
    let f = equality_clauses(l, forward, backward, a, b);
    let to_a = seq![backward.negated(), b.negated(), a];
    let to_b = seq![forward.negated(), a.negated(), b];
    let first = seq![l.negated(), forward];
    let second = seq![l.negated(), backward];
    assert(clause_true(m, f[0]) && clause_true(m, f[1]) && clause_true(m, f[2]) && clause_true(m, f[3]));
    lemma_clause_distinct(m, to_a);
    lemma_clause_distinct(m, to_b);
    lemma_clause_distinct(m, first);
    lemma_clause_distinct(m, second);
    assert(m.contains_key(a.id) && m.contains_key(b.id) && m.contains_key(l.id));
    assert(lit_true(m, forward)) by {
        let j = choose|j: int| 0 <= j < first.len() && lit_true(m, #[trigger] first[j]);
        assert(first[0] == l.negated() && first[1] == forward);
    }
    assert(lit_true(m, backward)) by {
        let j = choose|j: int| 0 <= j < second.len() && lit_true(m, #[trigger] second[j]);
        assert(second[0] == l.negated() && second[1] == backward);
    }
    assert(lit_true(m, a) ==> lit_true(m, b)) by {
        let j = choose|j: int| 0 <= j < to_b.len() && lit_true(m, #[trigger] to_b[j]);
        assert(to_b[0] == forward.negated() && to_b[1] == a.negated() && to_b[2] == b);
    }
    assert(lit_true(m, b) ==> lit_true(m, a)) by {
        let j = choose|j: int| 0 <= j < to_a.len() && lit_true(m, #[trigger] to_a[j]);
        assert(to_a[0] == backward.negated() && to_a[1] == b.negated() && to_a[2] == a);
    }
}

/// The clauses of an equality ask no more, where both arguments are older
/// than the three identifiers that the connective draws, of which `next`
/// is the first: every valuation can be changed at those three alone so
/// that it satisfies the clauses and makes the connective's literal true
/// exactly if it gives `a` and `b` the same value. Of an argument that is
/// not older the clauses speak as of one of their own literals, and this
/// need not hold.
pub proof fn lemma_equality_complete(a: Literal, b: Literal, next: usize, m: Map<usize, bool>) -> (m2: Map<
    usize,
    bool,
>)
    requires
        total(m),
        next + 2 <= usize::MAX,
        a.id < next,
        b.id < next,
    ensures
        total(m2),
        forall|id: usize| id < next || id > next + 2 ==> #[trigger] m2[id] == m[id],
        models(m2, equality_clauses(fresh(next + 2), fresh(next + 1), fresh(next as int), a, b)),
        lit_true(m2, fresh(next + 2)) <==> (lit_true(m, a) <==> lit_true(m, b)),
{
    let backward = fresh(next as int);
    let forward = fresh(next + 1);
    let l = fresh(next + 2);
    let va = lit_true(m, a);
    let vb = lit_true(m, b);
    let m2 = m.insert(backward.id, vb ==> va).insert(forward.id, va ==> vb).insert(l.id, va == vb);
    assert(total(m2)) by {
        assert forall|id: usize| #[trigger] m2.contains_key(id) by {
            assert(m.contains_key(id));
        }
    }
    assert(m.contains_key(a.id) && m.contains_key(b.id));
    assert(lit_true(m2, a) == va && lit_true(m2, b) == vb);
    let f = equality_clauses(l, forward, backward, a, b);
    let to_a = seq![backward.negated(), b.negated(), a];
    let to_b = seq![forward.negated(), a.negated(), b];
    let first = seq![l.negated(), forward];
    let second = seq![l.negated(), backward];
    lemma_clause_distinct(m2, to_a);
    lemma_clause_distinct(m2, to_b);
    lemma_clause_distinct(m2, first);
    lemma_clause_distinct(m2, second);
    assert(clause_true(m2, to_a)) by {
        if !(vb ==> va) {
            assert(lit_true(m2, to_a[0]));
        } else if !vb {
            assert(lit_true(m2, to_a[1]));
        } else {
            assert(lit_true(m2, to_a[2]));
        }
    }
    assert(clause_true(m2, to_b)) by {
        if !(va ==> vb) {
            assert(lit_true(m2, to_b[0]));
        } else if !va {
            assert(lit_true(m2, to_b[1]));
        } else {
            assert(lit_true(m2, to_b[2]));
        }
    }
    assert(clause_true(m2, first)) by {
        if va == vb {
            assert(lit_true(m2, first[1]));
        } else {
            assert(lit_true(m2, first[0]));
        }
    }
    assert(clause_true(m2, second)) by {
        if va == vb {
            assert(lit_true(m2, second[1]));
        } else {
            assert(lit_true(m2, second[0]));
        }
    }
    assert forall|i: int| 0 <= i < f.len() implies clause_true(m2, #[trigger] f[i]) by {
        assert(f[0] == distinct(to_a) && f[1] == distinct(to_b) && f[2] == distinct(first) && f[3]
            == distinct(second));
    }
    m2
}

/// What the clauses of an exclusive disjunction ask, which are those of
/// the equality of the first argument's negation and the second: a
/// valuation that satisfies them and makes the literal `l` true gives `a`
/// and `b` different values.
pub proof fn lemma_xor_sound(
    l: Literal,
    forward: Literal,
    backward: Literal,
    a: Literal,
    b: Literal,
    m: Map<usize, bool>,
)
    requires
        total(m),
        models(m, equality_clauses(l, forward, backward, a.negated(), b)),
        lit_true(m, l),
    ensures
        lit_true(m, a) != lit_true(m, b),
{
    lemma_equality_sound(l, forward, backward, a.negated(), b, m);
    assert(m.contains_key(a.id));
}

/// The clauses of an exclusive disjunction ask no more, where both
/// arguments are older than the three identifiers that the connective
/// draws, of which `next` is the first: every valuation can be changed at
/// those three alone so that it satisfies the clauses and makes the
/// connective's literal true exactly if it gives `a` and `b` different
/// values.
pub proof fn lemma_xor_complete(a: Literal, b: Literal, next: usize, m: Map<usize, bool>) -> (m2: Map<
    usize,
    bool,
>)
    requires
        total(m),
        next + 2 <= usize::MAX,
        a.id < next,
        b.id < next,
    ensures
        total(m2),
        forall|id: usize| id < next || id > next + 2 ==> #[trigger] m2[id] == m[id],
        models(m2, equality_clauses(fresh(next + 2), fresh(next + 1), fresh(next as int), a.negated(), b)),
        lit_true(m2, fresh(next + 2)) <==> (lit_true(m, a) != lit_true(m, b)),
{
    assert(m.contains_key(a.id));
    lemma_equality_complete(a.negated(), b, next, m)
}

/// What asserting terms one after the other leaves.
pub struct Asserted {
    /// Whether every term compiled.
    pub done: bool,
    /// The scope afterwards.
    pub scope: Seq<(Seq<char>, usize)>,
    /// The upcoming identifier afterwards.
    pub next: usize,
    /// The clauses of the terms, each term's followed by the unit clause
    /// of its literal.
    pub clauses: Seq<Seq<Literal>>,
}

/// The first `k` terms of `ts` asserted one after the other: each is
/// compiled in the scope and with the identifiers that the one before has
/// left, and its clauses and the unit clause of its literal are appended.
pub open spec fn asserted(ts: Seq<Term>, k: int, sc: Seq<(Seq<char>, usize)>, next: usize) -> Asserted
    decreases k,
{
    if k <= 0 || k > ts.len() {
        Asserted { done: true, scope: sc, next, clauses: Seq::empty() }
    } else {
        let front = asserted(ts, k - 1, sc, next);
        let c = compile(ts[k - 1], front.scope, front.next);
        match c.root {
            Ok(root) => Asserted {
                done: front.done,
                scope: c.scope,
                next: c.next,
                clauses: front.clauses + c.clauses.push(seq![root]),
            },
            Err(_) => Asserted { done: false, scope: c.scope, next: c.next, clauses: front.clauses },
        }
    }
}

/// Each of the first `k` terms of `ts` is true.
pub open spec fn all_true(ts: Seq<Term>, k: int, sc: Seq<(Seq<char>, usize)>, m: Map<usize, bool>) -> bool {
    forall|i: int| 0 <= i < k ==> value(#[trigger] ts[i], sc, m)
}

/// How asserting leaves the scope and the identifiers: as compiling does,
/// and with the names of every asserted term in the scope.
pub proof fn lemma_asserted_shape(ts: Seq<Term>, k: int, sc: Seq<(Seq<char>, usize)>, next: usize)
    requires
        scope_wf(sc, next),
        0 <= k <= ts.len(),
        asserted(ts, k, sc, next).done,
    ensures
        grows(sc, asserted(ts, k, sc, next).scope, next),
        scope_wf(asserted(ts, k, sc, next).scope, asserted(ts, k, sc, next).next),
        later(next, asserted(ts, k, sc, next).next),
        all_known(
            asserted(ts, k, sc, next).clauses,
            asserted(ts, k, sc, next).scope,
            next,
            asserted(ts, k, sc, next).next,
        ),
        forall|i: int| 0 <= i < k ==> names_in(#[trigger] ts[i], asserted(ts, k, sc, next).scope),
        k > 0 ==> asserted(ts, k - 1, sc, next).done,
    decreases k,
{
    if k > 0 {
        let a = asserted(ts, k, sc, next);
        let front = asserted(ts, k - 1, sc, next);
        let c = compile(ts[k - 1], front.scope, front.next);
        let root = c.root->Ok_0;
        lemma_asserted_shape(ts, k - 1, sc, next);
        lemma_compile_shape(ts[k - 1], front.scope, front.next);
        assert(grows(sc, a.scope, next)) by {
            assert forall|t: int| sc.len() <= t < a.scope.len() implies !below((#[trigger] a.scope[t]).1, next) by {
                if t < front.scope.len() {
                    assert(a.scope[t] == front.scope[t]);
                } else {
                    if below(a.scope[t].1, next) {
                        assert(below(a.scope[t].1, front.next));
                    }
                }
            }
        }
        assert(later(next, a.next)) by {
            assert forall|id: usize| #[trigger] below(id, next) implies below(id, a.next) by {
                assert(below(id, front.next));
            }
        }
        assert forall|i: int, j: int| 0 <= i < a.clauses.len() && 0 <= j < a.clauses[i].len() implies known(
            (#[trigger] a.clauses[i][j]).id,
            a.scope,
            next,
            a.next,
        ) by {
            if i < front.clauses.len() {
                assert(a.clauses[i] == front.clauses[i]);
                assert(known(front.clauses[i][j].id, front.scope, next, front.next));
                lemma_known_more(front.clauses[i][j].id, front.scope, next, front.next, a.scope, next, a.next);
            } else {
                let t = i - front.clauses.len();
                let x = if t < c.clauses.len() {
                    c.clauses[t][j]
                } else {
                    root
                };
                assert(a.clauses[i][j] == x);
                assert(known(x.id, c.scope, front.next, c.next));
                lemma_known_more(x.id, c.scope, front.next, c.next, a.scope, next, a.next);
            }
        }
        assert forall|i: int| 0 <= i < k implies names_in(#[trigger] ts[i], a.scope) by {
            if i < k - 1 {
                let any = Map::<usize, bool>::empty();
                lemma_value_stable(ts[i], front.scope, a.scope, a.next, any, any);
            }
        }
    }
}

/// Where the clauses of the asserted terms hold, each term is true.
pub proof fn lemma_asserted_sound(
    ts: Seq<Term>,
    k: int,
    sc: Seq<(Seq<char>, usize)>,
    next: usize,
    m: Map<usize, bool>,
)
    requires
        scope_wf(sc, next),
        0 <= k <= ts.len(),
        forall|i: int| 0 <= i < k ==> positive(#[trigger] ts[i]),
        asserted(ts, k, sc, next).done,
        total(m),
        models(m, asserted(ts, k, sc, next).clauses),
    ensures
        all_true(ts, k, asserted(ts, k, sc, next).scope, m),
    decreases k,
{
    if k > 0 {
        let a = asserted(ts, k, sc, next);
        let front = asserted(ts, k - 1, sc, next);
        let c = compile(ts[k - 1], front.scope, front.next);
        let root = c.root->Ok_0;
        lemma_asserted_shape(ts, k - 1, sc, next);
        lemma_asserted_shape(ts, k, sc, next);
        lemma_compile_shape(ts[k - 1], front.scope, front.next);
        assert(models(m, front.clauses)) by {
            assert forall|i: int| 0 <= i < front.clauses.len() implies clause_true(m, #[trigger] front.clauses[i]) by {
                assert(a.clauses[i] == front.clauses[i]);
            }
        }
        assert(models(m, c.clauses)) by {
            assert forall|i: int| 0 <= i < c.clauses.len() implies clause_true(m, #[trigger] c.clauses[i]) by {
                assert(a.clauses[front.clauses.len() + i] == c.clauses[i]);
            }
        }
        assert(lit_true(m, root)) by {
            let u = a.clauses[(front.clauses.len() + c.clauses.len()) as int];
            assert(u == seq![root]);
            assert(clause_true(m, u));
            let j = choose|j: int| 0 <= j < u.len() && lit_true(m, #[trigger] u[j]);
        }
        lemma_asserted_sound(ts, k - 1, sc, next, m);
        lemma_compile_sound(ts[k - 1], front.scope, front.next, m);
        assert forall|i: int| 0 <= i < k implies value(#[trigger] ts[i], a.scope, m) by {
            if i < k - 1 {
                lemma_value_stable(ts[i], front.scope, a.scope, a.next, m, m);
            }
        }
    }
}

/// A valuation under which each asserted term is true can be changed, at
/// the identifiers that the compiler drew alone, so that it satisfies the
/// clauses of the asserted terms.
#[verifier::rlimit(40)]
pub proof fn lemma_asserted_complete(
    ts: Seq<Term>,
    k: int,
    sc: Seq<(Seq<char>, usize)>,
    next: usize,
    m: Map<usize, bool>,
) -> (m2: Map<usize, bool>)
    requires
        scope_wf(sc, next),
        0 <= k <= ts.len(),
        asserted(ts, k, sc, next).done,
        total(m),
        all_true(ts, k, asserted(ts, k, sc, next).scope, m),
    ensures
        total(m2),
        same_outside(m, m2, asserted(ts, k, sc, next).scope, next, asserted(ts, k, sc, next).next),
        models(m2, asserted(ts, k, sc, next).clauses),
    decreases k,
{
    if k == 0 {
        m
    } else {
        let a = asserted(ts, k, sc, next);
        let front = asserted(ts, k - 1, sc, next);
        let c = compile(ts[k - 1], front.scope, front.next);
        let root = c.root->Ok_0;
        lemma_asserted_shape(ts, k - 1, sc, next);
        lemma_asserted_shape(ts, k, sc, next);
        lemma_compile_shape(ts[k - 1], front.scope, front.next);
        assert forall|i: int| 0 <= i < k - 1 implies value(#[trigger] ts[i], front.scope, m) by {
            lemma_value_stable(ts[i], front.scope, a.scope, a.next, m, m);
        }
        let m1 = lemma_asserted_complete(ts, k - 1, sc, next, m);
        let m2 = lemma_compile_complete(ts[k - 1], front.scope, front.next, m1);
        // m2 has the values of m1 at what was known before
        assert forall|id: usize| known(id, front.scope, next, front.next) implies #[trigger] m2[id]
            == m1[id] by {
            if has_id(front.scope, id) {
                let t = choose|t: int| 0 <= t < front.scope.len() && (#[trigger] front.scope[t]).1 == id;
                assert(c.scope[t].1 == id);
                assert(has_id(c.scope, id));
            }
        }
        // m1 has the values of m at the names
        assert forall|id: usize| has_id(c.scope, id) implies #[trigger] m1[id] == m[id] by {
            let t = choose|t: int| 0 <= t < c.scope.len() && (#[trigger] c.scope[t]).1 == id;
            if t < front.scope.len() {
                assert(front.scope[t] == c.scope[t]);
                assert(has_id(front.scope, id));
            } else {
                assert(!below(c.scope[t].1, front.next));
            }
        }
        assert(same_outside(m, m2, a.scope, next, a.next)) by {
            assert forall|id: usize| has_id(a.scope, id) || below(id, next) || !below(id, a.next) implies #[trigger] m2[id]
                == m[id] by {
                if below(id, next) {
                    assert(below(id, front.next));
                }
                if !below(id, a.next) {
                    if below(id, front.next) {
                        assert(below(id, c.next));
                    }
                }
                assert(m2[id] == m1[id]);
                assert(m1[id] == m[id]);
            }
        }
        lemma_value_stable(ts[k - 1], c.scope, c.scope, c.next, m, m1);
        assert(lit_true(m2, root));
        assert(models(m2, a.clauses)) by {
            assert forall|i: int| 0 <= i < a.clauses.len() implies clause_true(m2, #[trigger] a.clauses[i]) by {
                if i < front.clauses.len() {
                    assert(a.clauses[i] == front.clauses[i]);
                    assert(clause_true(m1, front.clauses[i]));
                    let j = choose|j: int|
                        0 <= j < front.clauses[i].len() && lit_true(m1, #[trigger] front.clauses[i][j]);
                    let x = front.clauses[i][j];
                    assert(known(x.id, front.scope, next, front.next));
                    assert(m2[x.id] == m1[x.id]);
                    assert(m2.contains_key(x.id));
                    assert(lit_true(m2, a.clauses[i][j]));
                } else if i < front.clauses.len() + c.clauses.len() {
                    assert(a.clauses[i] == c.clauses[i - front.clauses.len()]);
                } else {
                    assert(a.clauses[i] == seq![root]);
                    assert(lit_true(m2, a.clauses[i][0]));
                }
            }
        }
        m2
    }
}

/// The clauses of positive terms that were asserted one after the other
/// can be satisfied exactly if some valuation makes every one of the terms
/// true.
pub proof fn lemma_tseitin_all(ts: Seq<Term>, sc: Seq<(Seq<char>, usize)>, next: usize)
    requires
        scope_wf(sc, next),
        forall|i: int| 0 <= i < ts.len() ==> positive(#[trigger] ts[i]),
        asserted(ts, ts.len() as int, sc, next).done,
    ensures
        satisfiable(asserted(ts, ts.len() as int, sc, next).clauses) <==> exists|m: Map<usize, bool>|
            total(m) && #[trigger] all_true(
                ts,
                ts.len() as int,
                asserted(ts, ts.len() as int, sc, next).scope,
                m,
            ),
{
    let k = ts.len() as int;
    let a = asserted(ts, k, sc, next);
    if satisfiable(a.clauses) {
        let m0 = choose|m: Map<usize, bool>| models(m, a.clauses);
        crate::model::lemma_completion(m0, a.clauses);
        let m = crate::model::completion(m0);
        lemma_asserted_sound(ts, k, sc, next, m);
        assert(total(m) && all_true(ts, k, a.scope, m));
    }
    if exists|m: Map<usize, bool>| total(m) && #[trigger] all_true(ts, k, a.scope, m) {
        let m = choose|m: Map<usize, bool>| total(m) && #[trigger] all_true(ts, k, a.scope, m);
        let m2 = lemma_asserted_complete(ts, k, sc, next, m);
        assert(models(m2, a.clauses));
    }
}

/// An `assert` that succeeds does to a state what `asserted` does with one
/// term: the scope and the upcoming identifier are those after compiling
/// the term, and the clauses of all frames grow by the term's clauses and
/// the unit clause of its literal.
pub proof fn lemma_step_asserts(s: State, term: Term)
    requires
        s.wf(),
        !s.exit,
        s.logic is Some,
        compile(term, scope(s.frames), s.next).root is Ok,
    ensures
        step(s, (Command::Assert { term })).0 is Ok,
        step(s, (Command::Assert { term })).1.next == compile(term, scope(s.frames), s.next).next,
        scope(step(s, (Command::Assert { term })).1.frames) == compile(term, scope(s.frames), s.next).scope,
        all_clauses(step(s, (Command::Assert { term })).1.frames) == all_clauses(s.frames) + compile(
            term,
            scope(s.frames),
            s.next,
        ).clauses.push(seq![compile(term, scope(s.frames), s.next).root->Ok_0]),
{
    let sc = scope(s.frames);
    let c = compile(term, sc, s.next);
    let root = c.root->Ok_0;
    let names = c.scope.skip(sc.len() as int);
    let added = c.clauses.push(seq![root]);
    let after = grown(s.frames, names, added);
    assert(scope_wf(sc, s.next));
    lemma_compile_shape(term, sc, s.next);
    assert(step(s, (Command::Assert { term })).1.frames == after);
    assert(after.drop_last() =~= s.frames.drop_last());
    assert(scope(after) =~= sc + names);
    assert(sc + names =~= c.scope);
    assert(all_clauses(after) =~= all_clauses(s.frames) + added);
}

} // verus!
