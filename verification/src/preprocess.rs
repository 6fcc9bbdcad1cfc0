//! The preprocessor: unit propagation on the clause database, and after it
//! self-subsuming resolution.

use vstd::prelude::*;
use std::collections::HashMap;
use crate::assertion_set::{well_formed, Clause, Literal};
use crate::model::{clause_true, formula, lit_true};
use crate::solver::Res;

verus! {

/// A clause of two literals that are each other's negation.
pub open spec fn tautology_pair(c: Seq<Literal>) -> bool {
    c.len() == 2 && c[1] == c[0].negated()
}

/// Some clause of `f` is a pair of a literal and its negation.
pub open spec fn flags_pair(f: Seq<Seq<Literal>>) -> bool {
    exists|i: int| 0 <= i < f.len() && tautology_pair(#[trigger] f[i])
}

/// The unit clause `{l}` is in `f`.
pub open spec fn unit_of(f: Seq<Seq<Literal>>, l: Literal) -> bool {
    exists|i: int| 0 <= i < f.len() && (#[trigger] f[i]).len() == 1 && f[i][0] == l
}

/// Two unit clauses of `f` hold a literal and its negation.
pub open spec fn clashing_units(f: Seq<Seq<Literal>>) -> bool {
    exists|l: Literal| #[trigger] unit_of(f, l) && unit_of(f, l.negated())
}

/// What the preprocessor takes for a trivial contradiction.
pub open spec fn contradiction(f: Seq<Seq<Literal>>) -> bool {
    flags_pair(f) || clashing_units(f)
}

/// Some clause of `f` is a unit clause.
pub open spec fn has_unit(f: Seq<Seq<Literal>>) -> bool {
    exists|i: int| 0 <= i < f.len() && (#[trigger] f[i]).len() == 1
}

/// `a` with the literals of the unit clauses of `f` recorded.
pub open spec fn absorb(a: Map<usize, bool>, f: Seq<Seq<Literal>>) -> Map<usize, bool> {
    Map::new(
        |id: usize|
            a.contains_key(id) || unit_of(f, Literal { value: true, id }) || unit_of(
                f,
                Literal { value: false, id },
            ),
        |id: usize|
            if unit_of(f, Literal { value: true, id }) {
                true
            } else if unit_of(f, Literal { value: false, id }) {
                false
            } else {
                a[id]
            },
    )
}

/// The literals of `c` whose variables `a` leaves open, in their order.
pub open spec fn reduct(a: Map<usize, bool>, c: Seq<Literal>) -> Seq<Literal>
    decreases c.len(),
{
    if c.len() == 0 {
        Seq::empty()
    } else if a.contains_key(c.last().id) {
        reduct(a, c.drop_last())
    } else {
        reduct(a, c.drop_last()).push(c.last())
    }
}

/// The clauses of `f` that are no unit clauses and that `a` does not
/// satisfy, each without the literals whose variables `a` assigns.
pub open spec fn survivors(a: Map<usize, bool>, f: Seq<Seq<Literal>>) -> Seq<Seq<Literal>>
    decreases f.len(),
{
    if f.len() == 0 {
        Seq::empty()
    } else if f.last().len() == 1 || clause_true(a, f.last()) {
        survivors(a, f.drop_last())
    } else {
        survivors(a, f.drop_last()).push(reduct(a, f.last()))
    }
}

/// Some clause of `f` that is no unit clause has all its literals false in `a`.
pub open spec fn emptied(a: Map<usize, bool>, f: Seq<Seq<Literal>>) -> bool {
    exists|i: int|
        0 <= i < f.len() && (#[trigger] f[i]).len() != 1 && !clause_true(a, f[i]) && reduct(
            a,
            f[i],
        ).len() == 0
}

/// What is left of a clause is the part of it that `a` leaves open.
pub proof fn lemma_reduct(a: Map<usize, bool>, c: Seq<Literal>)
    ensures
        reduct(a, c).len() <= c.len(),
        forall|l: Literal| #[trigger] reduct(a, c).contains(l) <==> c.contains(l) && !a.contains_key(l.id),
        c.no_duplicates() ==> reduct(a, c).no_duplicates(),
        (forall|j: int| 0 <= j < c.len() ==> !a.contains_key((#[trigger] c[j]).id)) ==> reduct(a, c) == c,
    decreases c.len(),
{
    if c.len() > 0 {
        let front = c.drop_last();
        let r = reduct(a, front);
        lemma_reduct(a, front);
        assert forall|l: Literal| #[trigger] reduct(a, c).contains(l) <==> c.contains(l) && !a.contains_key(
            l.id,
        ) by {
            if c.contains(l) && !a.contains_key(l.id) {
                let j = choose|j: int| 0 <= j < c.len() && c[j] == l;
                if j < c.len() - 1 {
                    assert(front[j] == l);
                    assert(r.contains(l));
                    let t = choose|t: int| 0 <= t < r.len() && r[t] == l;
                    assert(reduct(a, c)[t] == l);
                } else {
                    assert(reduct(a, c)[r.len() as int] == l);
                }
            }
            if reduct(a, c).contains(l) {
                let t = choose|t: int| 0 <= t < reduct(a, c).len() && reduct(a, c)[t] == l;
                if t < r.len() {
                    assert(r[t] == l);
                    assert(r.contains(l));
                    let j = choose|j: int| 0 <= j < front.len() && front[j] == l;
                    assert(c[j] == l);
                } else {
                    assert(c[c.len() - 1] == l);
                }
            }
        }
        if c.no_duplicates() {
            assert(front.no_duplicates());
            if r.contains(c.last()) {
                let j = choose|j: int| 0 <= j < front.len() && front[j] == c.last();
                assert(c[j] == c[c.len() - 1]);
            }
        }
        if forall|j: int| 0 <= j < c.len() ==> !a.contains_key((#[trigger] c[j]).id) {
            assert forall|j: int| 0 <= j < front.len() implies !a.contains_key((#[trigger] front[j]).id) by {
                assert(front[j] == c[j]);
            }
            assert(!a.contains_key(c[c.len() - 1].id));
            assert(r.push(c.last()) =~= c);
        }
    }
}

/// A round leaves no more clauses than there were, and fewer where there
/// was a unit clause.
pub proof fn lemma_survivors_len(a: Map<usize, bool>, f: Seq<Seq<Literal>>)
    ensures
        survivors(a, f).len() <= f.len(),
        has_unit(f) ==> survivors(a, f).len() < f.len(),
    decreases f.len(),
{
    if f.len() > 0 {
        lemma_survivors_len(a, f.drop_last());
        if has_unit(f) {
            let i = choose|i: int| 0 <= i < f.len() && (#[trigger] f[i]).len() == 1;
            if i < f.len() - 1 {
                assert(f.drop_last()[i].len() == 1);
            }
        }
    }
}

/// The unit propagation of the preprocessor, from the database `f` with the
/// assignment `a` on record. Each round first looks for a trivial
/// contradiction; then records the literals of the unit clauses; then drops
/// the unit clauses and the satisfied clauses and strikes the false literals
/// from the others. A clause that loses all its literals ends the run, as a
/// contradiction does. The run ends without a verdict as soon as a round
/// had no unit clause or leaves none.
///
/// Gives the verdict, if there is one, the database that is left and the
/// assignment on record at the end.
pub open spec fn unit_run(f: Seq<Seq<Literal>>, a: Map<usize, bool>) -> (
    Option<Res>,
    Seq<Seq<Literal>>,
    Map<usize, bool>,
)
    decreases f.len(),
{
    if contradiction(f) {
        (Some(Res::UNSAT), Seq::empty(), a)
    } else if emptied(absorb(a, f), f) {
        (Some(Res::UNSAT), Seq::empty(), absorb(a, f))
    } else if !has_unit(f) || !has_unit(survivors(absorb(a, f), f)) {
        (None, survivors(absorb(a, f), f), absorb(a, f))
    } else {
        proof {
            lemma_survivors_len(absorb(a, f), f);
        }
        unit_run(survivors(absorb(a, f), f), absorb(a, f))
    }
}

/// The literals that a round records anew among the unit clauses of the
/// first `k` clauses of `f`, in their order.
pub open spec fn recorded(a: Map<usize, bool>, f: Seq<Seq<Literal>>, k: int) -> Seq<Literal>
    decreases k,
{
    if k <= 0 || k > f.len() {
        Seq::empty()
    } else if f[k - 1].len() == 1 && !absorb(a, f.take(k - 1)).contains_key(f[k - 1][0].id) {
        recorded(a, f, k - 1).push(f[k - 1][0])
    } else {
        recorded(a, f, k - 1)
    }
}

/// The literals that the run of `unit_run` records, after those of `log`,
/// in the order in which it records them.
pub open spec fn unit_log(f: Seq<Seq<Literal>>, a: Map<usize, bool>, log: Seq<Literal>) -> Seq<Literal>
    decreases f.len(),
{
    if contradiction(f) {
        log
    } else if emptied(absorb(a, f), f) || !has_unit(f) || !has_unit(survivors(absorb(a, f), f)) {
        log + recorded(a, f, f.len() as int)
    } else {
        proof {
            lemma_survivors_len(absorb(a, f), f);
        }
        unit_log(survivors(absorb(a, f), f), absorb(a, f), log + recorded(a, f, f.len() as int))
    }
}

/// Looks for a trivial contradiction: a clause of two literals that are
/// each other's negation, or two unit clauses of a literal and its negation.
pub fn find_contradiction(clauses: &[Clause]) -> (r: Option<Res>)
    ensures
        r == if contradiction(formula(clauses@)) {
            Some(Res::UNSAT)
        } else {
            None::<Res>
        },
{
    broadcast use vstd::std_specs::hash::group_hash_axioms;

    let ghost f = formula(clauses@);
    let mut seen: HashMap<usize, bool> = HashMap::new();
    let mut i: usize = 0;
    while i < clauses.len()
        invariant
            i <= clauses@.len(),
            f == formula(clauses@),
            !flags_pair(f.take(i as int)),
            forall|id: usize| #[trigger]
                seen@.contains_key(id) <==> unit_of(f.take(i as int), Literal { value: true, id })
                    || unit_of(f.take(i as int), Literal { value: false, id }),
            forall|id: usize| #[trigger]
                seen@.contains_key(id) ==> unit_of(f.take(i as int), Literal { value: seen@[id], id })
                    && !unit_of(f.take(i as int), Literal { value: !seen@[id], id }),
        decreases clauses@.len() - i,
    {
        let clause = &clauses[i];
        let ghost c = clause@;
        let ghost front = f.take(i as int);
        let ghost more = f.take(i as int + 1);
        proof {
            assert(more[i as int] == c);
            assert(more.drop_last() =~= front);
            assert forall|l: Literal| unit_of(more, l) <==> (unit_of(front, l) || (c.len() == 1 && c[0]
                == l)) by {
                if unit_of(more, l) {
                    let k = choose|k: int| 0 <= k < more.len() && (#[trigger] more[k]).len() == 1 && more[k][0]
                        == l;
                    if k < i {
                        assert(front[k] == more[k]);
                    }
                }
                if unit_of(front, l) {
                    let k = choose|k: int| 0 <= k < front.len() && (#[trigger] front[k]).len() == 1
                        && front[k][0] == l;
                    assert(more[k] == front[k]);
                }
            }
            assert(flags_pair(more) <==> (flags_pair(front) || tautology_pair(c))) by {
                if flags_pair(more) {
                    let k = choose|k: int| 0 <= k < more.len() && tautology_pair(#[trigger] more[k]);
                    if k < i {
                        assert(front[k] == more[k]);
                    }
                }
                if tautology_pair(c) {
                    assert(tautology_pair(more[i as int]));
                }
            }
        }
        if clause.literals.len() == 2 {
            let x = clause.literals[0];
            let y = clause.literals[1];
            if y.id == x.id && y.value != x.value {
                proof {
                    assert(tautology_pair(f[i as int]));
                }
                return Some(Res::UNSAT);
            }
        } else if clause.literals.len() == 1 {
            let l = clause.literals[0];
            let known = seen.get(&l.id);
            match known {
                Some(value) => {
                    if *value != l.value {
                        proof {
                            let o = Literal { value: !l.value, id: l.id };
                            assert(unit_of(front, o));
                            let k = choose|k: int| 0 <= k < front.len() && (#[trigger] front[k]).len() == 1
                                && front[k][0] == o;
                            assert(f[k] == front[k]);
                            assert(unit_of(f, o));
                            assert(f[i as int].len() == 1 && f[i as int][0] == l);
                            assert(unit_of(f, l));
                            assert(o == l.negated());
                        }
                        return Some(Res::UNSAT);
                    }
                },
                None => {
                    seen.insert(l.id, l.value);
                },
            }
            proof {
                assert(l == Literal { value: l.value, id: l.id });
            }
        }
        i += 1;
    }
    proof {
        assert(f.take(i as int) =~= f);
        if clashing_units(f) {
            let l = choose|l: Literal| #[trigger] unit_of(f, l) && unit_of(f, l.negated());
            assert(l == Literal { value: l.value, id: l.id });
            assert(l.negated() == Literal { value: !l.value, id: l.id });
            assert(seen@.contains_key(l.id));
        }
    }
    None
}


/// No variable that `a` assigns occurs in `f`.
pub open spec fn untouched(a: Map<usize, bool>, f: Seq<Seq<Literal>>) -> bool {
    forall|i: int, j: int|
        0 <= i < f.len() && 0 <= j < f[i].len() ==> !a.contains_key((#[trigger] f[i][j]).id)
}

/// `s` lists the assignment `a`: one literal for each variable that `a`
/// assigns, with its value.
pub open spec fn lists(s: Seq<Literal>, a: Map<usize, bool>) -> bool {
    &&& forall|k: int| 0 <= k < s.len() ==> lit_true(a, #[trigger] s[k])
    &&& forall|id: usize|
        a.contains_key(id) ==> exists|k: int| 0 <= k < s.len() && (#[trigger] s[k]).id == id
    &&& forall|k1: int, k2: int|
        0 <= k1 < k2 < s.len() ==> (#[trigger] s[k1]).id != (#[trigger] s[k2]).id
}

proof fn lemma_unit_of_take(f: Seq<Seq<Literal>>, i: int, l: Literal)
    requires
        0 <= i < f.len(),
    ensures
        unit_of(f.take(i + 1), l) <==> (unit_of(f.take(i), l) || (f[i].len() == 1 && f[i][0] == l)),
        has_unit(f.take(i + 1)) <==> (has_unit(f.take(i)) || f[i].len() == 1),
{
    let front = f.take(i);
    let more = f.take(i + 1);
    assert(more[i] == f[i]);
    if unit_of(more, l) {
        let k = choose|k: int| 0 <= k < more.len() && (#[trigger] more[k]).len() == 1 && more[k][0] == l;
        if k < i {
            assert(front[k] == more[k]);
        }
    }
    if unit_of(front, l) {
        let k = choose|k: int| 0 <= k < front.len() && (#[trigger] front[k]).len() == 1 && front[k][0]
            == l;
        assert(more[k] == front[k]);
    }
    if has_unit(more) {
        let k = choose|k: int| 0 <= k < more.len() && (#[trigger] more[k]).len() == 1;
        if k < i {
            assert(front[k] == more[k]);
        }
    }
    if has_unit(front) {
        let k = choose|k: int| 0 <= k < front.len() && (#[trigger] front[k]).len() == 1;
        assert(more[k] == front[k]);
    }
}

/// The unit propagation of the preprocessor, with the assignment that it
/// records: the verdict, the database that is left, and the literals that
/// the unit clauses forced. See `unit_run`.
#[verifier::rlimit(40)]
pub fn propagate_units(clauses: Vec<Clause>) -> (r: (Option<Res>, Vec<Clause>, Vec<Literal>))
    requires
        well_formed(clauses@),
    ensures
        r.0 == unit_run(formula(clauses@), Map::empty()).0,
        formula(r.1@) == unit_run(formula(clauses@), Map::empty()).1,
        lists(r.2@, unit_run(formula(clauses@), Map::empty()).2),
        r.2@ == unit_log(formula(clauses@), Map::empty(), Seq::empty()),
        well_formed(r.1@),
{
    broadcast use vstd::std_specs::hash::group_hash_axioms;

    let ghost given = formula(clauses@);
    let mut work = clauses;
    let mut assigned: HashMap<usize, bool> = HashMap::new();
    let mut forced: Vec<Literal> = Vec::new();
    proof {
        assert(assigned@ =~= Map::<usize, bool>::empty());
    }
    loop
        invariant
            given == formula(clauses@),
            unit_run(given, Map::empty()) == unit_run(formula(work@), assigned@),
            well_formed(work@),
            untouched(assigned@, formula(work@)),
            lists(forced@, assigned@),
            unit_log(given, Map::empty(), Seq::empty()) == unit_log(formula(work@), assigned@, forced@),
        decreases work@.len(),
    {
        let ghost f = formula(work@);
        let ghost a0 = assigned@;
        let ghost log0 = forced@;
        if find_contradiction(work.as_slice()).is_some() {
            let none: Vec<Clause> = Vec::new();
            proof {
                assert(formula(none@) =~= Seq::<Seq<Literal>>::empty());
            }
            return (Some(Res::UNSAT), none, forced);
        }
        // the literals of the unit clauses go on record
        let mut any_unit = false;
        let mut i: usize = 0;
        while i < work.len()
            invariant
                i <= work@.len(),
                f == formula(work@),
                !contradiction(f),
                untouched(a0, f),
                assigned@ == absorb(a0, f.take(i as int)),
                lists(forced@, assigned@),
                any_unit == has_unit(f.take(i as int)),
                forced@ == log0 + recorded(a0, f, i as int),
            decreases work@.len() - i,
        {
            let clause = &work[i];
            proof {
                assert forall|l: Literal|
                    unit_of(f.take(i as int + 1), l) <==> (unit_of(f.take(i as int), l) || (f[i as int].len()
                        == 1 && f[i as int][0] == l)) by {
                    lemma_unit_of_take(f, i as int, l);
                }
                lemma_unit_of_take(f, i as int, Literal { value: true, id: 0 });
            }
            if clause.literals.len() == 1 {
                let l = clause.literals[0];
                let ghost before = assigned@;
                let ghost listed = forced@;
                proof {
                    assert(l == Literal { value: l.value, id: l.id });
                    assert(f[i as int][0] == l);
                    assert(!a0.contains_key(f[i as int][0].id));
                    assert(unit_of(f, l)) by {
                        assert(f[i as int].len() == 1 && f[i as int][0] == l);
                    }
                    assert(!unit_of(f.take(i as int), l.negated())) by {
                        if unit_of(f.take(i as int), l.negated()) {
                            let k = choose|k: int|
                                0 <= k < f.take(i as int).len() && (#[trigger] f.take(i as int)[k]).len() == 1
                                    && f.take(i as int)[k][0] == l.negated();
                            assert(f[k] == f.take(i as int)[k]);
                            assert(unit_of(f, l.negated()));
                        }
                    }
                    assert(l.negated() == Literal { value: !l.value, id: l.id });
                }
                if !assigned.contains_key(&l.id) {
                    assigned.insert(l.id, l.value);
                    forced.push(l);
                    proof {
                        assert(forced@ =~= log0 + recorded(a0, f, i as int + 1));
                        assert forall|k: int| 0 <= k < forced@.len() implies lit_true(
                            assigned@,
                            #[trigger] forced@[k],
                        ) by {
                            if k < listed.len() {
                                assert(forced@[k] == listed[k]);
                                assert(lit_true(before, listed[k]));
                            }
                        }
                        assert forall|id: usize| assigned@.contains_key(id) implies exists|k: int|
                            0 <= k < forced@.len() && (#[trigger] forced@[k]).id == id by {
                            if id == l.id {
                                assert(forced@[listed.len() as int].id == id);
                            } else {
                                let k = choose|k: int| 0 <= k < listed.len() && (#[trigger] listed[k]).id == id;
                                assert(forced@[k].id == id);
                            }
                        }
                        assert forall|k1: int, k2: int| 0 <= k1 < k2 < forced@.len() implies (#[trigger] forced@[k1]).id
                            != (#[trigger] forced@[k2]).id by {
                            assert(forced@[k1] == listed[k1]);
                            if k2 < listed.len() {
                                assert(forced@[k2] == listed[k2]);
                            } else {
                                assert(lit_true(before, listed[k1]));
                            }
                        }
                    }
                }
                proof {
                    assert(assigned@ =~= absorb(a0, f.take(i as int + 1)));
                }
                any_unit = true;
            } else {
                proof {
                    assert(assigned@ =~= absorb(a0, f.take(i as int + 1)));
                }
            }
            i += 1;
        }
        proof {
            assert(f.take(i as int) =~= f);
        }
        let ghost a1 = assigned@;
        // the other clauses are rewritten
        let mut out: Vec<Clause> = Vec::new();
        let mut left_unit = false;
        let mut i: usize = 0;
        proof {
            assert(!has_unit(formula(out@)));
        }
        while i < work.len()
            invariant
                i <= work@.len(),
                f == formula(work@),
                well_formed(work@),
                a1 == assigned@,
                left_unit == has_unit(formula(out@)),
                formula(out@) == survivors(a1, f.take(i as int)),
                !emptied(a1, f.take(i as int)),
                well_formed(out@),
                untouched(a1, formula(out@)),
                lists(forced@, assigned@),
                a1 == absorb(a0, f),
                !contradiction(f),
                given == formula(clauses@),
                unit_run(given, Map::empty()) == unit_run(f, a0),
                unit_log(given, Map::empty(), Seq::empty()) == unit_log(f, a0, log0),
                forced@ == log0 + recorded(a0, f, f.len() as int),
            decreases work@.len() - i,
        {
            let clause = &work[i];
            let ghost c = clause@;
            let ghost front = f.take(i as int);
            let ghost more = f.take(i as int + 1);
            proof {
                assert(more.drop_last() =~= front);
                assert(more.last() == c);
                assert(emptied(a1, more) <==> (emptied(a1, front) || (c.len() != 1 && !clause_true(
                    a1,
                    c,
                ) && reduct(a1, c).len() == 0))) by {
                    if emptied(a1, more) {
                        let k = choose|k: int|
                            0 <= k < more.len() && (#[trigger] more[k]).len() != 1 && !clause_true(
                                a1,
                                more[k],
                            ) && reduct(a1, more[k]).len() == 0;
                        if k < i {
                            assert(front[k] == more[k]);
                        }
                    }
                    if emptied(a1, front) {
                        let k = choose|k: int|
                            0 <= k < front.len() && (#[trigger] front[k]).len() != 1 && !clause_true(
                                a1,
                                front[k],
                            ) && reduct(a1, front[k]).len() == 0;
                        assert(more[k] == front[k]);
                    }
                    if c.len() != 1 && !clause_true(a1, c) && reduct(a1, c).len() == 0 {
                        assert(more[i as int] == c);
                    }
                }
            }
            if clause.literals.len() != 1 {
                let mut kept: Vec<Literal> = Vec::new();
                let mut satisfied = false;
                let mut j: usize = 0;
                while j < clause.literals.len()
                    invariant
                        j <= c.len(),
                        c == clause@,
                        a1 == assigned@,
                        kept@ == reduct(a1, c.take(j as int)),
                        satisfied == clause_true(a1, c.take(j as int)),
                    decreases c.len() - j,
                {
                    let l = clause.literals[j];
                    proof {
                        assert(c.take(j as int + 1).drop_last() =~= c.take(j as int));
                        assert(c.take(j as int + 1).last() == l);
                        let longer = c.take(j as int + 1);
                        let shorter = c.take(j as int);
                        assert(clause_true(a1, longer) <==> (clause_true(a1, shorter) || lit_true(a1, l))) by {
                            if clause_true(a1, longer) {
                                let t = choose|t: int| 0 <= t < longer.len() && lit_true(a1, #[trigger] longer[t]);
                                if t < j {
                                    assert(shorter[t] == longer[t]);
                                }
                            }
                            if clause_true(a1, shorter) {
                                let t = choose|t: int| 0 <= t < shorter.len() && lit_true(
                                    a1,
                                    #[trigger] shorter[t],
                                );
                                assert(longer[t] == shorter[t]);
                            }
                            if lit_true(a1, l) {
                                assert(longer[j as int] == l);
                            }
                        }
                    }
                    match assigned.get(&l.id) {
                        Some(value) => {
                            if *value == l.value {
                                satisfied = true;
                            }
                        },
                        None => {
                            kept.push(l);
                        },
                    }
                    j += 1;
                }
                proof {
                    assert(c.take(j as int) =~= c);
                    lemma_reduct(a1, c);
                }
                if !satisfied {
                    if kept.len() == 0 {
                        proof {
                            assert(emptied(a1, more));
                            assert(more[i as int] == f[i as int]);
                            let k = choose|k: int|
                                0 <= k < more.len() && (#[trigger] more[k]).len() != 1 && !clause_true(
                                    a1,
                                    more[k],
                                ) && reduct(a1, more[k]).len() == 0;
                            assert(f[k] == more[k]);
                            assert(emptied(a1, f));
                        }
                        let none: Vec<Clause> = Vec::new();
                        proof {
                            assert(formula(none@) =~= Seq::<Seq<Literal>>::empty());
                        }
                        return (Some(Res::UNSAT), none, forced);
                    }
                    let ghost before = out@;
                    if kept.len() == 1 {
                        left_unit = true;
                    }
                    let rewritten = Clause { literals: kept };
                    out.push(rewritten);
                    proof {
                        assert(formula(out@) =~= formula(before).push(reduct(a1, c)));
                        let now = formula(out@);
                        let was = formula(before);
                        if has_unit(now) {
                            let k = choose|k: int| 0 <= k < now.len() && (#[trigger] now[k]).len() == 1;
                            if k < was.len() {
                                assert(was[k] == now[k]);
                            }
                        }
                        if has_unit(was) {
                            let k = choose|k: int| 0 <= k < was.len() && (#[trigger] was[k]).len() == 1;
                            assert(now[k] == was[k]);
                        }
                        if reduct(a1, c).len() == 1 {
                            assert(now[was.len() as int].len() == 1);
                        }
                        assert(work@[i as int].wf());
                        assert forall|x: int, y: int|
                            0 <= x < formula(out@).len() && 0 <= y < formula(out@)[x].len() implies !a1.contains_key(
                            (#[trigger] formula(out@)[x][y]).id,
                        ) by {
                            if x < before.len() {
                                assert(formula(out@)[x] == formula(before)[x]);
                            } else {
                                let r = reduct(a1, c);
                                assert(r.contains(r[y]));
                            }
                        }
                        assert forall|x: int| 0 <= x < out@.len() implies (#[trigger] out@[x]).wf() by {
                            if x < before.len() {
                                assert(out@[x] == before[x]);
                            }
                        }
                    }
                }
            }
            i += 1;
        }
        proof {
            assert(f.take(i as int) =~= f);
            lemma_survivors_len(a1, f);
        }
        proof {
            assert(!emptied(a1, f));
            assert(any_unit == has_unit(f));
        }
        if !any_unit || !left_unit {
            return (None, out, forced);
        }
        work = out;
    }
}

/// The unit propagation of the preprocessor: the verdict, if there is one,
/// and the database that is left. See `unit_run`. The only verdict is
/// `UNSAT`, with which nothing is left; without a verdict every clause
/// that is left has two literals or more.
pub fn remove_unary(clauses: Vec<Clause>) -> (r: (Option<Res>, Vec<Clause>))
    requires
        well_formed(clauses@),
    ensures
        r.0 == unit_run(formula(clauses@), Map::empty()).0,
        formula(r.1@) == unit_run(formula(clauses@), Map::empty()).1,
        well_formed(r.1@),
        r.0 is Some ==> r.0 == Some(Res::UNSAT) && r.1@.len() == 0,
        r.0 is None ==> forall|i: int| 0 <= i < r.1@.len() ==> (#[trigger] r.1@[i])@.len() >= 2,
{
    let ghost f = formula(clauses@);
    let (res, left, _forced) = propagate_units(clauses);
    proof {
        lemma_unit_run_verdict(f, Map::empty());
        if res is None {
            crate::theorems::lemma_unit_run_untouched(f, Map::empty());
            assert forall|i: int| 0 <= i < left@.len() implies (#[trigger] left@[i])@.len() >= 2 by {
                assert(formula(left@)[i] == left@[i]@);
                assert(formula(left@)[i].len() > 0);
                if left@[i]@.len() == 1 {
                    assert(has_unit(formula(left@)));
                }
            }
        }
    }
    (res, left)
}


/// For each literal the indexes of the clauses that hold it.
pub struct WatchMap {
    slots: HashMap<usize, usize>,
    positive: Vec<Vec<usize>>,
    negative: Vec<Vec<usize>>,
}

impl WatchMap {
    /// The indexes on record for `l`.
    pub closed spec fn watching(&self, l: Literal) -> Seq<usize> {
        if self.slots@.contains_key(l.id) {
            if l.value {
                self.positive@[self.slots@[l.id] as int]@
            } else {
                self.negative@[self.slots@[l.id] as int]@
            }
        } else {
            Seq::empty()
        }
    }

    /// Every variable on record has two lists of its own.
    pub closed spec fn wf(&self) -> bool {
        &&& self.positive@.len() == self.negative@.len()
        &&& forall|id: usize| #[trigger]
            self.slots@.contains_key(id) ==> self.slots@[id] < self.positive@.len()
        &&& forall|a: usize, b: usize|
            self.slots@.contains_key(a) && self.slots@.contains_key(b) && a != b ==> #[trigger] self.slots@[a]
                != #[trigger] self.slots@[b]
    }

    /// The map is the watch map of `f`: it has an index on record for a
    /// literal exactly if the clause at that index holds the literal, and
    /// the indexes of a literal stand in ascending order.
    pub open spec fn watches(&self, f: Seq<Seq<Literal>>) -> bool {
        &&& self.wf()
        &&& forall|l: Literal, i: usize| #[trigger]
            self.watching(l).contains(i) <==> i < f.len() && f[i as int].contains(l)
        &&& forall|l: Literal| crate::seqs::ascending(#[trigger] self.watching(l))
    }

    /// The watch map of no clauses.
    pub fn new() -> (w: WatchMap)
        ensures
            w.watches(Seq::empty()),
    {
        broadcast use vstd::std_specs::hash::group_hash_axioms;

        let w = WatchMap { slots: HashMap::new(), positive: Vec::new(), negative: Vec::new() };
        proof {
            assert forall|l: Literal, i: usize| !#[trigger] w.watching(l).contains(i) by {
                assert(w.watching(l) =~= Seq::empty());
            }
            assert forall|l: Literal| crate::seqs::ascending(#[trigger] w.watching(l)) by {
                assert(w.watching(l) =~= Seq::empty());
            }
        }
        w
    }

    /// The indexes of the clauses that hold `l`, if there are any: a
    /// literal is on record exactly if some clause holds it.
    pub fn lookup(&self, l: Literal) -> (r: Option<&Vec<usize>>)
        requires
            self.wf(),
        ensures
            r is Some <==> self.watching(l).len() > 0,
            match r {
                Some(list) => list@ == self.watching(l),
                None => self.watching(l).len() == 0,
            },
    {
        broadcast use vstd::std_specs::hash::group_hash_axioms;

        match self.slots.get(&l.id) {
            Some(slot) => {
                let list = if l.value {
                    &self.positive[*slot]
                } else {
                    &self.negative[*slot]
                };
                if list.len() == 0 {
                    None
                } else {
                    Some(list)
                }
            },
            None => None,
        }
    }

    /// Puts the clause `clause`, which comes after the clauses `f`, on record.
    #[verifier::rlimit(40)]
    pub(crate) fn add(&mut self, index: usize, clause: &Clause, Ghost(f): Ghost<Seq<Seq<Literal>>>)
        requires
            old(self).watches(f),
            index == f.len(),
            clause.wf(),
        ensures
            final(self).watches(f.push(clause@)),
    {
        broadcast use vstd::std_specs::hash::group_hash_axioms;

        let ghost c = clause@;
        let mut j: usize = 0;
        while j < clause.literals.len()
            invariant
                j <= c.len(),
                c == clause@,
                c.no_duplicates(),
                index == f.len(),
                self.wf(),
                forall|l: Literal, i: usize| #[trigger]
                    self.watching(l).contains(i) <==> (i < f.len() && f[i as int].contains(l)) || (i
                        == index && c.take(j as int).contains(l)),
                forall|l: Literal| crate::seqs::ascending(#[trigger] self.watching(l)),
            decreases c.len() - j,
        {
            let l = clause.literals[j];
            let ghost before = *self;
            let ghost front = c.take(j as int);
            let ghost more = c.take(j as int + 1);
            proof {
                assert forall|x: Literal| more.contains(x) <==> (front.contains(x) || x == l) by {
                    if more.contains(x) {
                        let t = choose|t: int| 0 <= t < more.len() && more[t] == x;
                        if t < j {
                            assert(front[t] == x);
                        }
                    }
                    if front.contains(x) {
                        let t = choose|t: int| 0 <= t < front.len() && front[t] == x;
                        assert(more[t] == x);
                    }
                    if x == l {
                        assert(more[j as int] == x);
                    }
                }
            }
            let known = self.slots.get(&l.id);
            let slot: usize = match known {
                Some(slot) => *slot,
                None => {
                    let fresh = self.positive.len();
                    self.positive.push(Vec::new());
                    self.negative.push(Vec::new());
                    self.slots.insert(l.id, fresh);
                    proof {
                        assert(self.wf());
                        assert forall|x: Literal| #[trigger] self.watching(x) == before.watching(x) by {
                            if x.id == l.id {
                                assert(self.watching(x) =~= before.watching(x));
                            } else if before.slots@.contains_key(x.id) {
                                assert(before.slots@[x.id] < before.positive@.len());
                            }
                        }
                    }
                    fresh
                },
            };
            let ghost mid = *self;
            proof {
                assert(mid.slots@.contains_key(l.id) && mid.slots@[l.id] == slot);
                assert forall|x: Literal| #[trigger] mid.watching(x) == before.watching(x) by {}
            }
            if l.value {
                self.positive[slot].push(index);
            } else {
                self.negative[slot].push(index);
            }
            proof {
                assert(self.wf());
                assert forall|x: Literal| #[trigger]
                    self.watching(x) == if x == l {
                        mid.watching(x).push(index)
                    } else {
                        mid.watching(x)
                    } by {
                    if x.id != l.id && mid.slots@.contains_key(x.id) {
                        assert(mid.slots@[x.id] != mid.slots@[l.id]);
                    }
                }
                assert forall|x: Literal, i: usize| #[trigger]
                    self.watching(x).contains(i) <==> (i < f.len() && f[i as int].contains(x)) || (i
                        == index && more.contains(x)) by {
                    let w0 = mid.watching(x);
                    assert(w0 == before.watching(x));
                    assert(before.watching(x).contains(i) <==> (i < f.len() && f[i as int].contains(x))
                        || (i == index && front.contains(x)));
                    if x == l {
                        let w1 = w0.push(index);
                        assert(self.watching(x) == w1);
                        if w1.contains(i) {
                            let t = choose|t: int| 0 <= t < w1.len() && w1[t] == i;
                            if t < w0.len() {
                                assert(w0[t] == i);
                            }
                        }
                        if w0.contains(i) {
                            let t = choose|t: int| 0 <= t < w0.len() && w0[t] == i;
                            assert(w1[t] == i);
                        }
                        assert(w1[w0.len() as int] == index);
                    } else {
                        assert(self.watching(x) == w0);
                    }
                }
                assert forall|x: Literal| crate::seqs::ascending(#[trigger] self.watching(x)) by {
                    let w0 = mid.watching(x);
                    assert(w0 == before.watching(x));
                    assert(crate::seqs::ascending(before.watching(x)));
                    if x == l {
                        let w1 = w0.push(index);
                        assert(self.watching(x) == w1);
                        assert(!front.contains(l)) by {
                            if front.contains(l) {
                                let t = choose|t: int| 0 <= t < front.len() && front[t] == l;
                                assert(c[t] == c[j as int]);
                            }
                        }
                        assert forall|a: int, b: int| 0 <= a < b < w1.len() implies w1[a] < w1[b] by {
                            assert(w0.contains(w0[a]));
                            assert(before.watching(x).contains(w0[a]));
                            if b < w0.len() {
                                assert(w0[a] < w0[b]);
                            }
                        }
                    }
                }
            }
            j += 1;
        }
        proof {
            assert(c.take(j as int) =~= c);
            let g = f.push(c);
            assert forall|l: Literal, i: usize| #[trigger]
                self.watching(l).contains(i) <==> i < g.len() && g[i as int].contains(l) by {
                if i < f.len() {
                    assert(g[i as int] == f[i as int]);
                }
            }
        }
    }
}

/// The watch map of `clauses`.
pub fn watch_map(clauses: &Vec<Clause>) -> (w: WatchMap)
    requires
        well_formed(clauses@),
    ensures
        w.watches(formula(clauses@)),
{
    let mut w = WatchMap::new();
    let mut i: usize = 0;
    while i < clauses.len()
        invariant
            i <= clauses@.len(),
            well_formed(clauses@),
            w.watches(formula(clauses@).take(i as int)),
        decreases clauses@.len() - i,
    {
        let ghost f = formula(clauses@).take(i as int);
        w.add(i, &clauses[i], Ghost(f));
        proof {
            assert(f.push(clauses@[i as int]@) =~= formula(clauses@).take(i as int + 1));
        }
        i += 1;
    }
    proof {
        assert(formula(clauses@).take(i as int) =~= formula(clauses@));
    }
    w
}


/// Resolving `c` with `d` on `l` gives no literal that `c` does not have:
/// `d` holds the negation of `l`, and its other literals are all in `c`.
pub open spec fn subsumes_but(d: Seq<Literal>, c: Seq<Literal>, l: Literal) -> bool {
    &&& d.contains(l.negated())
    &&& forall|j: int| 0 <= j < d.len() && #[trigger] d[j] != l.negated() ==> c.contains(d[j])
}

/// The literal `l` of clause `ci` can be struck: another clause of `f`
/// resolves with it on `l` to a part of it.
pub open spec fn removable(f: Seq<Seq<Literal>>, ci: int, l: Literal) -> bool {
    exists|di: int| 0 <= di < f.len() && di != ci && subsumes_but(#[trigger] f[di], f[ci], l)
}

/// The first `k` literals of clause `ci` without those that can be struck.
pub open spec fn struck(f: Seq<Seq<Literal>>, ci: int, k: int) -> Seq<Literal>
    decreases k,
{
    if k <= 0 {
        Seq::empty()
    } else if removable(f, ci, f[ci][k - 1]) {
        struck(f, ci, k - 1)
    } else {
        struck(f, ci, k - 1).push(f[ci][k - 1])
    }
}

/// Clause `ci` of `f` without the literals that can be struck.
pub open spec fn minimized(f: Seq<Seq<Literal>>, ci: int) -> Seq<Literal> {
    struck(f, ci, f[ci].len() as int)
}

/// The first `k` clauses of `f`, each minimized, without those that lose
/// all their literals.
pub open spec fn minimized_upto(f: Seq<Seq<Literal>>, k: int) -> Seq<Seq<Literal>>
    decreases k,
{
    if k <= 0 {
        Seq::empty()
    } else if minimized(f, k - 1).len() == 0 {
        minimized_upto(f, k - 1)
    } else {
        minimized_upto(f, k - 1).push(minimized(f, k - 1))
    }
}

/// Self-subsuming resolution on the whole database.
pub open spec fn minimized_db(f: Seq<Seq<Literal>>) -> Seq<Seq<Literal>> {
    minimized_upto(f, f.len() as int)
}

/// What is left of a clause is a part of it, in its order.
pub proof fn lemma_struck(f: Seq<Seq<Literal>>, ci: int, k: int)
    requires
        0 <= ci < f.len(),
        0 <= k <= f[ci].len(),
    ensures
        struck(f, ci, k).len() <= k,
        forall|l: Literal| #[trigger]
            struck(f, ci, k).contains(l) <==> f[ci].take(k).contains(l) && !removable(f, ci, l),
        f[ci].no_duplicates() ==> struck(f, ci, k).no_duplicates(),
    decreases k,
{
    if k > 0 {
        lemma_struck(f, ci, k - 1);
        let c = f[ci];
        let front = c.take(k - 1);
        let more = c.take(k);
        let last = c[k - 1];
        let r = struck(f, ci, k - 1);
        let s = struck(f, ci, k);
        assert forall|x: Literal| more.contains(x) <==> (front.contains(x) || x == last) by {
            if more.contains(x) {
                let t = choose|t: int| 0 <= t < more.len() && more[t] == x;
                if t < k - 1 {
                    assert(front[t] == x);
                }
            }
            if front.contains(x) {
                let t = choose|t: int| 0 <= t < front.len() && front[t] == x;
                assert(more[t] == x);
            }
            if x == last {
                assert(more[k - 1] == x);
            }
        }
        assert forall|l: Literal| #[trigger] s.contains(l) <==> more.contains(l) && !removable(f, ci, l) by {
            if s.contains(l) {
                let t = choose|t: int| 0 <= t < s.len() && s[t] == l;
                if t < r.len() {
                    assert(r[t] == l);
                    assert(r.contains(l));
                }
            }
            if more.contains(l) && !removable(f, ci, l) {
                if front.contains(l) {
                    assert(r.contains(l));
                    let t = choose|t: int| 0 <= t < r.len() && r[t] == l;
                    assert(s[t] == l);
                } else {
                    assert(s[r.len() as int] == l);
                }
            }
        }
        if c.no_duplicates() {
            if r.contains(last) {
                assert(front.contains(last));
                let t = choose|t: int| 0 <= t < front.len() && front[t] == last;
                assert(c[t] == c[k - 1]);
            }
        }
    }
}

/// Whether every literal of `d` but `but` is in `c`.
fn others_within(d: &Clause, but: Literal, c: &Clause) -> (b: bool)
    ensures
        b == forall|j: int| 0 <= j < d@.len() && #[trigger] d@[j] != but ==> c@.contains(d@[j]),
{
    let mut j: usize = 0;
    while j < d.literals.len()
        invariant
            j <= d@.len(),
            forall|t: int| 0 <= t < j && #[trigger] d@[t] != but ==> c@.contains(d@[t]),
        decreases d@.len() - j,
    {
        let x = d.literals[j];
        if x != but && !c.contains(x) {
            return false;
        }
        j += 1;
    }
    true
}

/// Self-subsuming resolution on one clause: strikes from `clause`, which is
/// the clause at `index`, each literal on which another clause resolves
/// with it to a part of it.
#[verifier::rlimit(40)]
pub fn clause_minimization(clause: Clause, index: usize, clauses: &[Clause], watch_map: &WatchMap) -> (r:
    Clause)
    requires
        index < clauses@.len(),
        clause@ == clauses@[index as int]@,
        watch_map.watches(formula(clauses@)),
    ensures
        r@ == minimized(formula(clauses@), index as int),
        clause.wf() ==> r.wf(),
{
    let ghost f = formula(clauses@);
    let ghost c = clause@;
    let n_clauses = clauses.len();
    let mut kept: Vec<Literal> = Vec::new();
    let mut k: usize = 0;
    while k < clause.literals.len()
        invariant
            f.len() == n_clauses,
            k <= c.len(),
            c == clause@,
            c == f[index as int],
            f == formula(clauses@),
            index < clauses@.len(),
            watch_map.watches(f),
            kept@ == struck(f, index as int, k as int),
        decreases c.len() - k,
    {
        let l = clause.literals[k];
        let not_l = l.not();
        let mut found = false;
        match watch_map.lookup(not_l) {
            Some(list) => {
                let mut t: usize = 0;
                while t < list.len()
                    invariant_except_break
                        !found,
                        forall|s: int|
                            0 <= s < t && #[trigger] list@[s] != index ==> !subsumes_but(
                                f[list@[s] as int],
                                c,
                                l,
                            ),
                    invariant
                        t <= list@.len(),
                        f.len() == n_clauses,
                        list@ == watch_map.watching(not_l),
                        watch_map.watches(f),
                        f == formula(clauses@),
                        c == clause@,
                        c == f[index as int],
                        index < clauses@.len(),
                        not_l == l.negated(),
                    ensures
                        found ==> removable(f, index as int, l),
                        !found ==> forall|s: int|
                            0 <= s < list@.len() && #[trigger] list@[s] != index ==> !subsumes_but(
                                f[list@[s] as int],
                                c,
                                l,
                            ),
                    decreases list@.len() - t,
                {
                    let di = list[t];
                    proof {
                        assert(list@.contains(di));
                        assert(watch_map.watching(not_l).contains(di));
                        assert(di < f.len() && f[di as int].contains(not_l));
                    }
                    if di != index && others_within(&clauses[di], not_l, &clause) {
                        found = true;
                        proof {
                            assert(subsumes_but(f[di as int], f[index as int], l));
                        }
                        break ;
                    }
                    t += 1;
                }
                proof {
                    if !found {
                        if removable(f, index as int, l) {
                            let di = choose|di: int|
                                0 <= di < f.len() && di != index && subsumes_but(
                                    #[trigger] f[di],
                                    f[index as int],
                                    l,
                                );
                            assert(watch_map.watching(not_l).contains(di as usize));
                            let s = choose|s: int| 0 <= s < list@.len() && list@[s] == di as usize;
                            assert(list@[s] != index);
                            assert(!subsumes_but(f[list@[s] as int], c, l));
                        }
                    }
                }
            },
            None => {
                proof {
                    if removable(f, index as int, l) {
                        let di = choose|di: int|
                            0 <= di < f.len() && di != index && subsumes_but(
                                #[trigger] f[di],
                                f[index as int],
                                l,
                            );
                        assert(watch_map.watching(not_l).contains(di as usize));
                    }
                }
            },
        }
        if !found {
            kept.push(l);
        }
        k += 1;
    }
    proof {
        lemma_struck(f, index as int, c.len() as int);
    }
    Clause { literals: kept }
}

/// Self-subsuming resolution on every clause. A clause that loses all its
/// literals is dropped.
pub fn minimize_cur_clauses(clauses: &[Clause], watch_map: &WatchMap) -> (r: Vec<Clause>)
    requires
        watch_map.watches(formula(clauses@)),
    ensures
        formula(r@) == minimized_db(formula(clauses@)),
        well_formed(clauses@) ==> well_formed(r@),
{
    let ghost f = formula(clauses@);
    let mut out: Vec<Clause> = Vec::new();
    let mut i: usize = 0;
    while i < clauses.len()
        invariant
            i <= clauses@.len(),
            f == formula(clauses@),
            watch_map.watches(f),
            formula(out@) == minimized_upto(f, i as int),
            well_formed(clauses@) ==> well_formed(out@),
        decreases clauses@.len() - i,
    {
        let ghost before = out@;
        let minimal = clause_minimization(clauses[i].clone(), i, clauses, watch_map);
        if !minimal.is_empty() {
            out.push(minimal);
            proof {
                assert(formula(out@) =~= formula(before).push(minimized(f, i as int)));
                if well_formed(clauses@) {
                    assert(clauses@[i as int].wf());
                    assert forall|x: int| 0 <= x < out@.len() implies (#[trigger] out@[x]).wf() by {
                        if x < before.len() {
                            assert(out@[x] == before[x]);
                        }
                    }
                }
            }
        }
        i += 1;
    }
    out
}


/// Every clause that minimization leaves has a literal, and is what is left
/// of a clause of `f`.
pub proof fn lemma_minimized_upto(f: Seq<Seq<Literal>>, k: int)
    requires
        0 <= k <= f.len(),
    ensures
        minimized_upto(f, k).len() <= k,
        forall|i: int|
            0 <= i < minimized_upto(f, k).len() ==> (#[trigger] minimized_upto(f, k)[i]).len() > 0,
        forall|i: int|
            0 <= i < minimized_upto(f, k).len() ==> exists|ci: int|
                0 <= ci < k && #[trigger] minimized(f, ci) == (#[trigger] minimized_upto(f, k)[i]),
        forall|ci: int|
            0 <= ci < k && minimized(f, ci).len() > 0 ==> minimized_upto(f, k).contains(
                #[trigger] minimized(f, ci),
            ),
    decreases k,
{
    if k > 0 {
        lemma_minimized_upto(f, k - 1);
        let rest = minimized_upto(f, k - 1);
        let now = minimized_upto(f, k);
        assert forall|i: int| 0 <= i < now.len() implies exists|ci: int|
            0 <= ci < k && #[trigger] minimized(f, ci) == (#[trigger] now[i]) by {
            if i < rest.len() {
                assert(now[i] == rest[i]);
                let ci = choose|ci: int| 0 <= ci < k - 1 && #[trigger] minimized(f, ci) == rest[i];
                assert(minimized(f, ci) == now[i]);
            } else {
                assert(minimized(f, k - 1) == now[i]);
            }
        }
        assert forall|ci: int| 0 <= ci < k && minimized(f, ci).len() > 0 implies now.contains(
            #[trigger] minimized(f, ci),
        ) by {
            if ci < k - 1 {
                assert(rest.contains(minimized(f, ci)));
                let i = choose|i: int| 0 <= i < rest.len() && rest[i] == minimized(f, ci);
                assert(now[i] == rest[i]);
            } else {
                assert(now[rest.len() as int] == minimized(f, ci));
            }
        }
    }
}


/// A run that ends in a verdict leaves no clauses.
pub proof fn lemma_unit_run_verdict(f: Seq<Seq<Literal>>, a: Map<usize, bool>)
    ensures
        unit_run(f, a).0 is Some ==> unit_run(f, a).1.len() == 0 && unit_run(f, a).0 == Some(Res::UNSAT),
    decreases f.len(),
{
    if !contradiction(f) && !emptied(absorb(a, f), f) && has_unit(f) && has_unit(
        survivors(absorb(a, f), f),
    ) {
        lemma_survivors_len(absorb(a, f), f);
        lemma_unit_run_verdict(survivors(absorb(a, f), f), absorb(a, f));
    }
}

} // verus!
