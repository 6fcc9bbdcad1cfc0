//! What the preprocessor keeps of a database's models.

use vstd::prelude::*;
use crate::assertion_set::Literal;
use crate::model::{clause_true, lemma_lit_extends, lit_true, models, satisfiable};
use crate::preprocess::{
    absorb, clashing_units, contradiction, emptied, flags_pair, has_unit, lemma_minimized_upto,
    lemma_reduct, lemma_struck, lemma_survivors_len, minimized, minimized_db, reduct,
    removable, subsumes_but, survivors, unit_of, unit_run, untouched,
};
use crate::solver::Res;

verus! {

/// `c` is what a round leaves of some clause of `f` that is no unit clause
/// and that `a` does not satisfy.
pub open spec fn left_of(a: Map<usize, bool>, f: Seq<Seq<Literal>>, c: Seq<Literal>) -> bool {
    exists|ci: int|
        0 <= ci < f.len() && (#[trigger] f[ci]).len() != 1 && !clause_true(a, f[ci]) && reduct(a, f[ci])
            == c
}

/// Each clause that survives a round is what is left of a clause of `f`
/// that is no unit clause and is not satisfied, and each such clause has
/// its rest among the survivors.
pub proof fn lemma_survivors(a: Map<usize, bool>, f: Seq<Seq<Literal>>)
    ensures
        forall|i: int| 0 <= i < survivors(a, f).len() ==> left_of(a, f, #[trigger] survivors(a, f)[i]),
        forall|ci: int|
            0 <= ci < f.len() && (#[trigger] f[ci]).len() != 1 && !clause_true(a, f[ci])
                ==> survivors(a, f).contains(reduct(a, f[ci])),
    decreases f.len(),
{
    if f.len() > 0 {
        let rest = f.drop_last();
        lemma_survivors(a, rest);
        let s = survivors(a, f);
        let r = survivors(a, rest);
        assert forall|i: int| 0 <= i < s.len() implies left_of(a, f, #[trigger] s[i]) by {
            if i < r.len() {
                assert(s[i] == r[i]);
                assert(left_of(a, rest, r[i]));
                let ci = choose|ci: int|
                    0 <= ci < rest.len() && (#[trigger] rest[ci]).len() != 1 && !clause_true(a, rest[ci])
                        && reduct(a, rest[ci]) == r[i];
                assert(f[ci] == rest[ci]);
                assert(f[ci].len() != 1 && !clause_true(a, f[ci]) && reduct(a, f[ci]) == s[i]);
            } else {
                let ci = f.len() - 1;
                assert(f[ci] == f.last());
                assert(f[ci].len() != 1 && !clause_true(a, f[ci]) && reduct(a, f[ci]) == s[i]);
            }
        }
        assert forall|ci: int|
            0 <= ci < f.len() && (#[trigger] f[ci]).len() != 1 && !clause_true(a, f[ci]) implies s.contains(
            reduct(a, f[ci]),
        ) by {
            if ci < rest.len() {
                assert(rest[ci] == f[ci]);
                assert(r.contains(reduct(a, rest[ci])));
                let i = choose|i: int| 0 <= i < r.len() && r[i] == reduct(a, f[ci]);
                assert(s[i] == r[i]);
            } else {
                assert(s[r.len() as int] == reduct(a, f[ci]));
            }
        }
    }
}

/// A round records nothing anew about a variable that was on record.
pub proof fn lemma_absorb(a: Map<usize, bool>, f: Seq<Seq<Literal>>)
    requires
        untouched(a, f),
    ensures
        a.submap_of(absorb(a, f)),
        untouched(absorb(a, f), survivors(absorb(a, f), f)),
        !has_unit(f) ==> absorb(a, f) == a,
        !clashing_units(f) ==> forall|l: Literal| #[trigger] unit_of(f, l) ==> lit_true(absorb(a, f), l),
{
    let a1 = absorb(a, f);
    assert forall|id: usize| a.contains_key(id) implies #[trigger] a1.contains_key(id) && a1[id]
        == a[id] by {
        let t = Literal { value: true, id };
        let n = Literal { value: false, id };
        if unit_of(f, t) {
            let i = choose|i: int| 0 <= i < f.len() && (#[trigger] f[i]).len() == 1 && f[i][0] == t;
            assert(!a.contains_key(f[i][0].id));
        }
        if unit_of(f, n) {
            let i = choose|i: int| 0 <= i < f.len() && (#[trigger] f[i]).len() == 1 && f[i][0] == n;
            assert(!a.contains_key(f[i][0].id));
        }
    }
    lemma_survivors(a1, f);
    let s = survivors(a1, f);
    assert forall|i: int, j: int| 0 <= i < s.len() && 0 <= j < s[i].len() implies !a1.contains_key(
        (#[trigger] s[i][j]).id,
    ) by {
        assert(left_of(a1, f, s[i]));
        let ci = choose|ci: int|
            0 <= ci < f.len() && (#[trigger] f[ci]).len() != 1 && !clause_true(a1, f[ci]) && reduct(
                a1,
                f[ci],
            ) == s[i];
        lemma_reduct(a1, f[ci]);
        assert(reduct(a1, f[ci]).contains(s[i][j]));
    }
    if !has_unit(f) {
        assert forall|id: usize| a1.contains_key(id) implies a.contains_key(id) by {
            let t = Literal { value: true, id };
            let n = Literal { value: false, id };
            if unit_of(f, t) {
                let i = choose|i: int| 0 <= i < f.len() && (#[trigger] f[i]).len() == 1 && f[i][0] == t;
            }
            if unit_of(f, n) {
                let i = choose|i: int| 0 <= i < f.len() && (#[trigger] f[i]).len() == 1 && f[i][0] == n;
            }
        }
        assert(a1 =~= a);
    }
    if !clashing_units(f) {
        assert forall|l: Literal| #[trigger] unit_of(f, l) implies lit_true(a1, l) by {
            assert(l == Literal { value: l.value, id: l.id });
            assert(l.negated() == Literal { value: !l.value, id: l.id });
            if !l.value {
                assert(!unit_of(f, l.negated()));
            }
        }
    }
}

/// The run comes upon a clause of two literals that are each other's
/// negation: the one thing that it takes for a contradiction and that is
/// none.
pub open spec fn meets_pair(f: Seq<Seq<Literal>>, a: Map<usize, bool>) -> bool
    decreases f.len(),
{
    if flags_pair(f) {
        true
    } else if contradiction(f) || emptied(absorb(a, f), f) || !has_unit(f) || !has_unit(
        survivors(absorb(a, f), f),
    ) {
        false
    } else {
        proof {
            lemma_survivors_len(absorb(a, f), f);
        }
        meets_pair(survivors(absorb(a, f), f), absorb(a, f))
    }
}

/// Unit propagation loses no model. If `m` satisfies `f` and agrees with
/// what is on record, and the run does not come upon a pair of a literal
/// and its negation, then the run gives no verdict, `m` agrees with all
/// that is recorded, and `m` satisfies what is left.
pub proof fn lemma_unit_run_keeps(f: Seq<Seq<Literal>>, a: Map<usize, bool>, m: Map<usize, bool>)
    requires
        untouched(a, f),
        a.submap_of(m),
        models(m, f),
        !meets_pair(f, a),
    ensures
        unit_run(f, a).0 is None,
        unit_run(f, a).2.submap_of(m),
        models(m, unit_run(f, a).1),
    decreases f.len(),
{
    let a1 = absorb(a, f);
    if clashing_units(f) {
        let l = choose|l: Literal| #[trigger] unit_of(f, l) && unit_of(f, l.negated());
        let i = choose|i: int| 0 <= i < f.len() && (#[trigger] f[i]).len() == 1 && f[i][0] == l;
        let k = choose|k: int| 0 <= k < f.len() && (#[trigger] f[k]).len() == 1 && f[k][0] == l.negated();
        assert(clause_true(m, f[i]));
        assert(clause_true(m, f[k]));
        assert(lit_true(m, f[i][0]));
        assert(lit_true(m, f[k][0]));
    }
    assert(!contradiction(f));
    lemma_absorb(a, f);
    assert(a1.submap_of(m)) by {
        assert forall|id: usize| a1.contains_key(id) implies #[trigger] m.contains_key(id) && a1[id]
            == m[id] by {
            let t = Literal { value: true, id };
            let n = Literal { value: false, id };
            if unit_of(f, t) {
                let i = choose|i: int| 0 <= i < f.len() && (#[trigger] f[i]).len() == 1 && f[i][0] == t;
                assert(clause_true(m, f[i]));
                assert(lit_true(m, f[i][0]));
            } else if unit_of(f, n) {
                let i = choose|i: int| 0 <= i < f.len() && (#[trigger] f[i]).len() == 1 && f[i][0] == n;
                assert(clause_true(m, f[i]));
                assert(lit_true(m, f[i][0]));
            } else {
                assert(a.contains_key(id));
            }
        }
    }
    // a clause of f that a1 does not satisfy is satisfied by m through a literal that a1 leaves open
    assert forall|ci: int| 0 <= ci < f.len() && !clause_true(a1, #[trigger] f[ci]) implies clause_true(
        m,
        reduct(a1, f[ci]),
    ) by {
        let c = f[ci];
        assert(clause_true(m, c));
        let j = choose|j: int| 0 <= j < c.len() && lit_true(m, #[trigger] c[j]);
        if a1.contains_key(c[j].id) {
            assert(lit_true(a1, c[j]));
        }
        lemma_reduct(a1, c);
        assert(c.contains(c[j]));
        let r = reduct(a1, c);
        assert(r.contains(c[j]));
        let t = choose|t: int| 0 <= t < r.len() && r[t] == c[j];
        assert(lit_true(m, r[t]));
    }
    if emptied(a1, f) {
        let i = choose|i: int|
            0 <= i < f.len() && (#[trigger] f[i]).len() != 1 && !clause_true(a1, f[i]) && reduct(
                a1,
                f[i],
            ).len() == 0;
        assert(clause_true(m, reduct(a1, f[i])));
    }
    let g = survivors(a1, f);
    lemma_survivors(a1, f);
    assert(models(m, g)) by {
        assert forall|i: int| 0 <= i < g.len() implies clause_true(m, #[trigger] g[i]) by {
            assert(left_of(a1, f, g[i]));
            let ci = choose|ci: int|
                0 <= ci < f.len() && (#[trigger] f[ci]).len() != 1 && !clause_true(a1, f[ci]) && reduct(
                    a1,
                    f[ci],
                ) == g[i];
        }
    }
    if has_unit(f) && has_unit(g) {
        lemma_survivors_len(a1, f);
        lemma_unit_run_keeps(g, a1, m);
    }
}

/// A part of a part of a valuation is a part of it.
pub proof fn lemma_submap_chain(a: Map<usize, bool>, b: Map<usize, bool>, c: Map<usize, bool>)
    requires
        a.submap_of(b),
        b.submap_of(c),
    ensures
        a.submap_of(c),
{
    assert forall|id: usize| a.dom().contains(id) implies #[trigger] c.dom().contains(id) && a[id] == c[id] by {
        assert(b.dom().contains(id));
        assert(b[id] == a[id]);
        assert(c.dom().contains(id));
        assert(c[id] == b[id]);
    }
}

/// A run that gives no verdict loses no clause. If `m` agrees with all that
/// the run recorded and satisfies what it left, then `m` satisfies `f`.
pub proof fn lemma_unit_run_lifts(f: Seq<Seq<Literal>>, a: Map<usize, bool>, m: Map<usize, bool>)
    requires
        untouched(a, f),
        unit_run(f, a).0 is None,
        unit_run(f, a).2.submap_of(m),
        models(m, unit_run(f, a).1),
    ensures
        models(m, f),
        a.submap_of(unit_run(f, a).2),
        untouched(unit_run(f, a).2, unit_run(f, a).1),
    decreases f.len(),
{
    let a1 = absorb(a, f);
    let g = survivors(a1, f);
    lemma_absorb(a, f);
    lemma_survivors(a1, f);
    if has_unit(f) && has_unit(g) {
        lemma_survivors_len(a1, f);
        lemma_unit_run_lifts(g, a1, m);
        let last = unit_run(g, a1).2;
        assert(unit_run(f, a).2 == last);
        lemma_submap_chain(a1, last, m);
        lemma_submap_chain(a, a1, last);
        assert(a1.submap_of(m));
    } else {
        assert(unit_run(f, a).2 == a1);
        assert(a1.submap_of(m));
    }
    assert(models(m, g));
    assert forall|ci: int| 0 <= ci < f.len() implies clause_true(m, #[trigger] f[ci]) by {
        let c = f[ci];
        if c.len() == 1 {
            assert(unit_of(f, c[0]));
            assert(lit_true(a1, c[0]));
            lemma_lit_extends(a1, m, c[0]);
            assert(lit_true(m, c[0]));
        } else if clause_true(a1, c) {
            let j = choose|j: int| 0 <= j < c.len() && lit_true(a1, #[trigger] c[j]);
            lemma_lit_extends(a1, m, c[j]);
            assert(lit_true(m, c[j]));
        } else {
            let r = reduct(a1, c);
            assert(g.contains(r));
            let i = choose|i: int| 0 <= i < g.len() && g[i] == r;
            assert(clause_true(m, g[i]));
            let t = choose|t: int| 0 <= t < r.len() && lit_true(m, #[trigger] r[t]);
            lemma_reduct(a1, c);
            assert(r.contains(r[t]));
            assert(c.contains(r[t]));
            let j = choose|j: int| 0 <= j < c.len() && c[j] == r[t];
            assert(lit_true(m, c[j]));
        }
    }
}

/// Unit propagation keeps satisfiability, but for the clause of a literal
/// and its negation: where the run from `f` does not come upon such a
/// clause, `f` can be satisfied exactly if the run gives no verdict and
/// what it leaves can be satisfied.
pub proof fn lemma_unit_run_preserves(f: Seq<Seq<Literal>>)
    requires
        !meets_pair(f, Map::empty()),
    ensures
        satisfiable(f) <==> unit_run(f, Map::empty()).0 is None && satisfiable(
            unit_run(f, Map::empty()).1,
        ),
        unit_run(f, Map::empty()).0 == Some(Res::UNSAT) ==> !satisfiable(f),
{
    let none = Map::<usize, bool>::empty();
    let run = unit_run(f, none);
    if satisfiable(f) {
        let m = choose|m: Map<usize, bool>| models(m, f);
        lemma_unit_run_keeps(f, none, m);
    }
    if run.0 is None && satisfiable(run.1) {
        let m = choose|m: Map<usize, bool>| models(m, run.1);
        lemma_unit_run_lifts_any(f, m);
    }
}

/// A model of what a run leaves, with the recorded values put in, is a
/// model of the database.
pub proof fn lemma_unit_run_lifts_any(f: Seq<Seq<Literal>>, m: Map<usize, bool>)
    requires
        unit_run(f, Map::empty()).0 is None,
        models(m, unit_run(f, Map::empty()).1),
    ensures
        models(m.union_prefer_right(unit_run(f, Map::empty()).2), f),
{
    let none = Map::<usize, bool>::empty();
    let run = unit_run(f, none);
    let both = m.union_prefer_right(run.2);
    // the recorded variables do not occur in what is left
    lemma_unit_run_untouched(f, none);
    assert(models(both, run.1)) by {
        assert forall|i: int| 0 <= i < run.1.len() implies clause_true(both, #[trigger] run.1[i]) by {
            let c = run.1[i];
            assert(clause_true(m, c));
            let j = choose|j: int| 0 <= j < c.len() && lit_true(m, #[trigger] c[j]);
            assert(!run.2.contains_key(run.1[i][j].id));
            assert(lit_true(both, c[j]));
        }
    }
    assert(run.2.submap_of(both));
    lemma_unit_run_lifts(f, none, both);
}

/// What a run records does not occur in what it leaves. And a run that
/// gives no verdict leaves neither a unit clause nor a clause without
/// literals.
pub proof fn lemma_unit_run_untouched(f: Seq<Seq<Literal>>, a: Map<usize, bool>)
    requires
        untouched(a, f),
        unit_run(f, a).0 is None,
    ensures
        untouched(unit_run(f, a).2, unit_run(f, a).1),
        !has_unit(unit_run(f, a).1),
        !clashing_units(unit_run(f, a).1),
        forall|i: int| 0 <= i < unit_run(f, a).1.len() ==> (#[trigger] unit_run(f, a).1[i]).len() > 0,
    decreases f.len(),
{
    let a1 = absorb(a, f);
    let g = survivors(a1, f);
    lemma_absorb(a, f);
    if has_unit(f) && has_unit(g) {
        lemma_survivors_len(a1, f);
        lemma_unit_run_untouched(g, a1);
    } else {
        if !has_unit(f) {
            lemma_survivors_same(a, f);
        }
        lemma_survivors(a1, f);
        assert forall|i: int| 0 <= i < g.len() implies (#[trigger] g[i]).len() > 0 by {
            assert(left_of(a1, f, g[i]));
            let ci = choose|ci: int|
                0 <= ci < f.len() && (#[trigger] f[ci]).len() != 1 && !clause_true(a1, f[ci]) && reduct(
                    a1,
                    f[ci],
                ) == g[i];
            if g[i].len() == 0 {
                assert(emptied(a1, f));
            }
        }
        if clashing_units(g) {
            let l = choose|l: Literal| #[trigger] unit_of(g, l) && unit_of(g, l.negated());
            let i = choose|i: int| 0 <= i < g.len() && (#[trigger] g[i]).len() == 1 && g[i][0] == l;
        }
    }
}

/// Where nothing on record occurs in `f` and `f` has no unit clause, a
/// round leaves `f` as it is.
pub proof fn lemma_survivors_same(a: Map<usize, bool>, f: Seq<Seq<Literal>>)
    requires
        untouched(a, f),
        !has_unit(f),
    ensures
        survivors(a, f) == f,
    decreases f.len(),
{
    if f.len() > 0 {
        let rest = f.drop_last();
        assert(untouched(a, rest)) by {
            assert forall|i: int, j: int|
                0 <= i < rest.len() && 0 <= j < rest[i].len() implies !a.contains_key(
                (#[trigger] rest[i][j]).id,
            ) by {
                assert(rest[i][j] == f[i][j]);
            }
        }
        assert(!has_unit(rest)) by {
            if has_unit(rest) {
                let i = choose|i: int| 0 <= i < rest.len() && (#[trigger] rest[i]).len() == 1;
                assert(f[i].len() == 1);
            }
        }
        lemma_survivors_same(a, rest);
        let c = f.last();
        assert(c == f[f.len() - 1]);
        assert(c.len() != 1);
        assert(!clause_true(a, c)) by {
            if clause_true(a, c) {
                let j = choose|j: int| 0 <= j < c.len() && lit_true(a, #[trigger] c[j]);
                assert(!a.contains_key(f[f.len() - 1][j].id));
            }
        }
        assert forall|j: int| 0 <= j < c.len() implies !a.contains_key((#[trigger] c[j]).id) by {
            assert(!a.contains_key(f[f.len() - 1][j].id));
        }
        lemma_reduct(a, c);
        assert(survivors(a, f) =~= f);
    }
}

/// Unit propagation is idempotent, but for the clause of a literal and its
/// negation: where what the run has left holds no such clause, a second
/// run on it gives no verdict and leaves the same.
pub proof fn lemma_unit_run_twice(f: Seq<Seq<Literal>>)
    requires
        !flags_pair(unit_run(f, Map::empty()).1),
    ensures
        unit_run(unit_run(f, Map::empty()).1, Map::empty()).0 is None,
        unit_run(unit_run(f, Map::empty()).1, Map::empty()).1 == unit_run(f, Map::empty()).1,
{
    let none = Map::<usize, bool>::empty();
    let first = unit_run(f, none);
    let g = first.1;
    if first.0 is Some {
        crate::preprocess::lemma_unit_run_verdict(f, none);
        assert(g =~= Seq::empty());
    } else {
        lemma_unit_run_untouched(f, none);
    }
    // on g there is nothing to do
    assert(!contradiction(g)) by {
        if first.0 is Some {
            if clashing_units(g) {
                let l = choose|l: Literal| #[trigger] unit_of(g, l) && unit_of(g, l.negated());
                let i = choose|i: int| 0 <= i < g.len() && (#[trigger] g[i]).len() == 1 && g[i][0] == l;
            }
        }
    }
    assert(!has_unit(g)) by {
        if first.0 is Some {
            if has_unit(g) {
                let i = choose|i: int| 0 <= i < g.len() && (#[trigger] g[i]).len() == 1;
            }
        }
    }
    lemma_absorb(none, g);
    assert(absorb(none, g) == none);
    assert(!emptied(none, g)) by {
        if emptied(none, g) {
            let i = choose|i: int|
                0 <= i < g.len() && (#[trigger] g[i]).len() != 1 && !clause_true(none, g[i]) && reduct(
                    none,
                    g[i],
                ).len() == 0;
            lemma_reduct(none, g[i]);
            assert(g[i].len() > 0);
            assert(reduct(none, g[i]) == g[i]);
        }
    }
    lemma_survivors_same(none, g);
}


/// To leave out the variables of `a` and then those of `b`, which has them
/// too, is to leave out those of `b`.
pub proof fn lemma_reduct_twice(a: Map<usize, bool>, b: Map<usize, bool>, c: Seq<Literal>)
    requires
        a.submap_of(b),
    ensures
        reduct(b, reduct(a, c)) == reduct(b, c),
    decreases c.len(),
{
    if c.len() > 0 {
        let front = c.drop_last();
        lemma_reduct_twice(a, b, front);
        if a.contains_key(c.last().id) {
            assert(b.contains_key(c.last().id));
        } else {
            let r = reduct(a, c);
            assert(r.last() == c.last());
            assert(r.drop_last() =~= reduct(a, front));
        }
    }
}

/// In a run that gives no verdict, each clause has a literal that the run
/// recorded as true, or its literals that the record leaves open make up one
/// of the clauses that the run leaves. The run keeps each value that was
/// on record at its start.
pub proof fn lemma_unit_run_descends(f: Seq<Seq<Literal>>, a: Map<usize, bool>, i: int)
    requires
        untouched(a, f),
        unit_run(f, a).0 is None,
        0 <= i < f.len(),
    ensures
        a.submap_of(unit_run(f, a).2),
        clause_true(unit_run(f, a).2, f[i]) || unit_run(f, a).1.contains(reduct(unit_run(f, a).2, f[i])),
    decreases f.len(),
{
    let a1 = absorb(a, f);
    let g = survivors(a1, f);
    let c = f[i];
    lemma_absorb(a, f);
    lemma_survivors(a1, f);
    if c.len() == 1 {
        assert(unit_of(f, c[0]));
        assert(lit_true(a1, c[0]));
        assert(clause_true(a1, c));
    }
    if has_unit(f) && has_unit(g) {
        let last = unit_run(g, a1).2;
        lemma_survivors_len(a1, f);
        if clause_true(a1, c) {
            let ci = choose|ci: int| 0 <= ci < g.len() && (#[trigger] g[ci]).len() == 1;
            lemma_unit_run_descends(g, a1, ci);
            let j = choose|j: int| 0 <= j < c.len() && lit_true(a1, #[trigger] c[j]);
            lemma_lit_extends(a1, last, c[j]);
        } else {
            let r = reduct(a1, c);
            assert(g.contains(r));
            let ci = choose|ci: int| 0 <= ci < g.len() && g[ci] == r;
            lemma_unit_run_descends(g, a1, ci);
            lemma_reduct(a1, c);
            if clause_true(last, r) {
                let t = choose|t: int| 0 <= t < r.len() && lit_true(last, #[trigger] r[t]);
                assert(r.contains(r[t]));
                assert(c.contains(r[t]));
                let j = choose|j: int| 0 <= j < c.len() && c[j] == r[t];
                assert(lit_true(last, c[j]));
            } else {
                lemma_reduct_twice(a1, last, c);
            }
        }
        lemma_submap_chain(a, a1, last);
        assert(unit_run(f, a).2 == last);
    } else {
        assert(unit_run(f, a).2 == a1);
    }
}

/// Every literal of `k` is a literal of `c`.
pub open spec fn covers(c: Seq<Literal>, k: Seq<Literal>) -> bool {
    forall|j: int| 0 <= j < k.len() ==> c.contains(#[trigger] k[j])
}

/// Clause `i` of `f` is not lost in preprocessing: unit propagation
/// recorded one of its literals as true, or it holds every literal of some
/// clause that the preprocessor keeps.
pub open spec fn outlives(f: Seq<Seq<Literal>>, i: int) -> bool {
    let run = unit_run(f, Map::empty());
    clause_true(run.2, f[i]) || exists|k: int|
        0 <= k < minimized_db(run.1).len() && covers(f[i], #[trigger] minimized_db(run.1)[k])
}

/// Where self-subsuming resolution leaves every clause with a literal, no
/// clause is lost in preprocessing.
pub proof fn lemma_spares_outlives(f: Seq<Seq<Literal>>, i: int)
    requires
        unit_run(f, Map::empty()).0 is None,
        spares(unit_run(f, Map::empty()).1),
        0 <= i < f.len(),
    ensures
        outlives(f, i),
{
    let none = Map::<usize, bool>::empty();
    let run = unit_run(f, none);
    let g = run.1;
    lemma_unit_run_descends(f, none, i);
    if !clause_true(run.2, f[i]) {
        let r = reduct(run.2, f[i]);
        let ci = choose|ci: int| 0 <= ci < g.len() && g[ci] == r;
        let left = minimized(g, ci);
        assert(left.len() > 0);
        lemma_minimized_upto(g, g.len() as int);
        let md = minimized_db(g);
        assert(md.contains(left));
        let k = choose|k: int| 0 <= k < md.len() && md[k] == left;
        lemma_struck(g, ci, g[ci].len() as int);
        lemma_reduct(run.2, f[i]);
        assert(g[ci].take(g[ci].len() as int) =~= g[ci]);
        assert forall|j: int| 0 <= j < left.len() implies f[i].contains(#[trigger] left[j]) by {
            assert(left.contains(left[j]));
            assert(g[ci].contains(left[j]));
        }
        assert(covers(f[i], md[k]));
    }
}

/// Self-subsuming resolution leaves every clause with a literal.
pub open spec fn spares(f: Seq<Seq<Literal>>) -> bool {
    forall|ci: int| 0 <= ci < f.len() ==> (#[trigger] minimized(f, ci)).len() > 0
}

/// What self-subsuming resolution leaves of a clause is a part of it. So a
/// valuation that satisfies the minimized database satisfies every clause
/// that has not lost all its literals.
pub proof fn lemma_minimized_part(f: Seq<Seq<Literal>>, m: Map<usize, bool>, ci: int)
    requires
        models(m, minimized_db(f)),
        0 <= ci < f.len(),
        minimized(f, ci).len() > 0,
    ensures
        clause_true(m, f[ci]),
{
    let md = minimized_db(f);
    let c = minimized(f, ci);
    lemma_minimized_upto(f, f.len() as int);
    assert(md.contains(c));
    let i = choose|i: int| 0 <= i < md.len() && md[i] == c;
    assert(clause_true(m, md[i]));
    let t = choose|t: int| 0 <= t < c.len() && lit_true(m, #[trigger] c[t]);
    lemma_struck(f, ci, f[ci].len() as int);
    assert(c.contains(c[t]));
    assert(f[ci].take(f[ci].len() as int) =~= f[ci]);
    assert(f[ci].contains(c[t]));
    let j = choose|j: int| 0 <= j < f[ci].len() && f[ci][j] == c[t];
    assert(lit_true(m, f[ci][j]));
}

/// The literal `l` is struck from clause `ci` by a clause whose other
/// literals all stay in clause `ci`.
pub open spec fn backed(f: Seq<Seq<Literal>>, ci: int, l: Literal) -> bool {
    exists|di: int|
        0 <= di < f.len() && di != ci && (#[trigger] f[di]).contains(l.negated()) && forall|j: int|
            0 <= j < f[di].len() && #[trigger] f[di][j] != l.negated() ==> minimized(f, ci).contains(
                f[di][j],
            )
}

/// Clause `ci` of `f` holds every literal of some clause that
/// self-subsuming resolution leaves.
pub open spec fn held(f: Seq<Seq<Literal>>, ci: int) -> bool {
    exists|k: int| 0 <= k < minimized_db(f).len() && covers(f[ci], #[trigger] minimized_db(f)[k])
}

/// Self-subsuming resolution is gentle on `f`. Where it leaves a clause
/// with a literal, each literal that it strikes from the clause is struck
/// by a clause whose other literals are among those that stay; several
/// literals can be struck from one clause in this way. Where it leaves a
/// clause without a literal, and so drops it, the clause holds every
/// literal of some clause that is left.
pub open spec fn gentle(f: Seq<Seq<Literal>>) -> bool {
    &&& forall|ci: int, l: Literal|
        0 <= ci < f.len() && minimized(f, ci).len() > 0 && f[ci].contains(l) && #[trigger] removable(
            f,
            ci,
            l,
        ) ==> backed(f, ci, l)
    &&& forall|ci: int| 0 <= ci < f.len() && (#[trigger] minimized(f, ci)).len() == 0 ==> held(f, ci)
}

/// Where self-subsuming resolution is gentle it keeps the models: a
/// valuation satisfies the database exactly if it satisfies the minimized
/// one.
pub proof fn lemma_minimized_keeps(f: Seq<Seq<Literal>>, m: Map<usize, bool>)
    requires
        gentle(f),
    ensures
        models(m, f) <==> models(m, minimized_db(f)),
{
    let md = minimized_db(f);
    lemma_minimized_upto(f, f.len() as int);
    if models(m, md) {
        assert forall|ci: int| 0 <= ci < f.len() implies clause_true(m, #[trigger] f[ci]) by {
            if minimized(f, ci).len() > 0 {
                lemma_minimized_part(f, m, ci);
            } else {
                assert(held(f, ci));
                let k = choose|k: int| 0 <= k < md.len() && covers(f[ci], #[trigger] md[k]);
                assert(clause_true(m, md[k]));
                let t = choose|t: int| 0 <= t < md[k].len() && lit_true(m, #[trigger] md[k][t]);
                assert(f[ci].contains(md[k][t]));
                let j = choose|j: int| 0 <= j < f[ci].len() && f[ci][j] == md[k][t];
                assert(lit_true(m, f[ci][j]));
            }
        }
    }
    if models(m, f) {
        assert forall|i: int| 0 <= i < md.len() implies clause_true(m, #[trigger] md[i]) by {
            let ci = choose|ci: int| 0 <= ci < f.len() && #[trigger] minimized(f, ci) == md[i];
            let c = f[ci];
            let s = minimized(f, ci);
            assert(s.len() > 0);
            lemma_struck(f, ci, c.len() as int);
            assert(c.take(c.len() as int) =~= c);
            assert(clause_true(m, c));
            let j = choose|j: int| 0 <= j < c.len() && lit_true(m, #[trigger] c[j]);
            let x = c[j];
            assert(c.contains(x));
            if removable(f, ci, x) {
                assert(backed(f, ci, x));
                let di = choose|di: int|
                    0 <= di < f.len() && di != ci && (#[trigger] f[di]).contains(x.negated()) && forall|j: int|
                        0 <= j < f[di].len() && #[trigger] f[di][j] != x.negated() ==> minimized(
                            f,
                            ci,
                        ).contains(f[di][j]);
                let d = f[di];
                assert(clause_true(m, d));
                let k = choose|k: int| 0 <= k < d.len() && lit_true(m, #[trigger] d[k]);
                let y = d[k];
                assert(y != x.negated());
                assert(s.contains(y));
                let t = choose|t: int| 0 <= t < s.len() && s[t] == y;
                assert(lit_true(m, s[t]));
            } else {
                assert(s.contains(x));
                let t = choose|t: int| 0 <= t < s.len() && s[t] == x;
                assert(lit_true(m, s[t]));
            }
        }
    }
}

/// The preprocessor keeps satisfiability where its two rules that can lose
/// it do no harm: where unit propagation does not come upon a clause of a
/// literal and its negation, and self-subsuming resolution is gentle on
/// what unit propagation leaves. Then a verdict of the preprocessor is
/// right, and without one the database can be satisfied exactly if what
/// the preprocessor leaves can.
pub proof fn lemma_preprocessing_preserves(f: Seq<Seq<Literal>>)
    requires
        !meets_pair(f, Map::empty()),
        unit_run(f, Map::empty()).0 is None ==> gentle(unit_run(f, Map::empty()).1),
    ensures
        unit_run(f, Map::empty()).0 == Some(Res::UNSAT) ==> !satisfiable(f),
        unit_run(f, Map::empty()).0 is None ==> (satisfiable(f) <==> satisfiable(
            minimized_db(unit_run(f, Map::empty()).1),
        )),
{
    let run = unit_run(f, Map::empty());
    lemma_unit_run_preserves(f);
    if run.0 is None {
        if satisfiable(run.1) {
            let m = choose|m: Map<usize, bool>| models(m, run.1);
            lemma_minimized_keeps(run.1, m);
        }
        if satisfiable(minimized_db(run.1)) {
            let m = choose|m: Map<usize, bool>| models(m, minimized_db(run.1));
            lemma_minimized_keeps(run.1, m);
        }
    }
}

/// Self-subsuming resolution has nothing to do on `f`: no literal of any
/// clause can be struck, and every clause has a literal.
pub open spec fn reduced(f: Seq<Seq<Literal>>) -> bool {
    &&& forall|ci: int, j: int|
        0 <= ci < f.len() && 0 <= j < f[ci].len() ==> !removable(f, ci, #[trigger] f[ci][j])
    &&& forall|ci: int| 0 <= ci < f.len() ==> (#[trigger] f[ci]).len() > 0
}

/// Where no literal can be struck, self-subsuming resolution leaves the
/// first `k` literals of a clause as they are.
proof fn lemma_reduced_clause(f: Seq<Seq<Literal>>, ci: int, k: int)
    requires
        reduced(f),
        0 <= ci < f.len(),
        0 <= k <= f[ci].len(),
    ensures
        crate::preprocess::struck(f, ci, k) == f[ci].take(k),
    decreases k,
{
    if k > 0 {
        lemma_reduced_clause(f, ci, k - 1);
        assert(!removable(f, ci, f[ci][k - 1]));
        assert(f[ci].take(k) =~= f[ci].take(k - 1).push(f[ci][k - 1]));
    } else {
        assert(f[ci].take(0) =~= Seq::<Literal>::empty());
    }
}

/// And the first `k` clauses.
proof fn lemma_reduced_upto(f: Seq<Seq<Literal>>, k: int)
    requires
        reduced(f),
        0 <= k <= f.len(),
    ensures
        crate::preprocess::minimized_upto(f, k) == f.take(k),
    decreases k,
{
    if k > 0 {
        lemma_reduced_upto(f, k - 1);
        lemma_reduced_clause(f, k - 1, f[k - 1].len() as int);
        assert(f[k - 1].take(f[k - 1].len() as int) =~= f[k - 1]);
        assert(minimized(f, k - 1) == f[k - 1]);
        assert(f.take(k) =~= f.take(k - 1).push(f[k - 1]));
    } else {
        assert(f.take(0) =~= Seq::<Seq<Literal>>::empty());
    }
}

/// Self-subsuming resolution leaves a database on which it has nothing to
/// do as it is.
pub proof fn lemma_minimized_fixed(f: Seq<Seq<Literal>>)
    requires
        reduced(f),
    ensures
        minimized_db(f) == f,
{
    lemma_reduced_upto(f, f.len() as int);
    assert(f.take(f.len() as int) =~= f);
}

/// A second pass of self-subsuming resolution changes nothing, where the
/// first has left nothing to strike. It can leave something: literals
/// are struck by the clauses as they were before the pass, and what a pass
/// leaves of two clauses can resolve where the clauses did not.
pub proof fn lemma_minimized_twice(f: Seq<Seq<Literal>>)
    requires
        reduced(minimized_db(f)),
    ensures
        minimized_db(minimized_db(f)) == minimized_db(f),
{
    lemma_minimized_fixed(minimized_db(f));
}

/// The preprocessor leaves a database on which it has nothing to do as it
/// is: one without a unit clause, without a clause of a literal and its
/// negation, and with nothing to strike.
pub proof fn lemma_preprocessing_fixed(g: Seq<Seq<Literal>>)
    requires
        !has_unit(g),
        !flags_pair(g),
        reduced(g),
    ensures
        unit_run(g, Map::empty()) == (None::<Res>, g, Map::<usize, bool>::empty()),
        minimized_db(unit_run(g, Map::empty()).1) == g,
{
    let none = Map::<usize, bool>::empty();
    if clashing_units(g) {
        let l = choose|l: Literal| #[trigger] unit_of(g, l) && unit_of(g, l.negated());
        let i = choose|i: int| 0 <= i < g.len() && (#[trigger] g[i]).len() == 1 && g[i][0] == l;
    }
    assert(untouched(none, g));
    lemma_absorb(none, g);
    assert(absorb(none, g) == none);
    assert(!emptied(none, g)) by {
        if emptied(none, g) {
            let i = choose|i: int|
                0 <= i < g.len() && (#[trigger] g[i]).len() != 1 && !clause_true(none, g[i]) && reduct(
                    none,
                    g[i],
                ).len() == 0;
            lemma_reduct(none, g[i]);
            assert(reduct(none, g[i]) == g[i]);
        }
    }
    lemma_survivors_same(none, g);
    lemma_minimized_fixed(g);
}

/// Preprocessing twice is preprocessing once, where the first time has
/// left nothing for the second to do: what unit propagation and then
/// self-subsuming resolution leave of `f` is left as it is by both.
pub proof fn lemma_preprocessing_twice(f: Seq<Seq<Literal>>)
    requires
        unit_run(f, Map::empty()).0 is None,
        !has_unit(minimized_db(unit_run(f, Map::empty()).1)),
        !flags_pair(minimized_db(unit_run(f, Map::empty()).1)),
        reduced(minimized_db(unit_run(f, Map::empty()).1)),
    ensures
        unit_run(minimized_db(unit_run(f, Map::empty()).1), Map::empty()).0 is None,
        minimized_db(unit_run(minimized_db(unit_run(f, Map::empty()).1), Map::empty()).1) == minimized_db(
            unit_run(f, Map::empty()).1,
        ),
{
    lemma_preprocessing_fixed(minimized_db(unit_run(f, Map::empty()).1));
}

} // verus!
