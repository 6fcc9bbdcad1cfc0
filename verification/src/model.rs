//! What it means for a clause database to be satisfiable.
//!
//! A valuation is a map from variable identifiers to Booleans. It may be
//! partial: a literal is true in it only where its variable has the
//! literal's polarity, and false only where it has the other one.

use vstd::prelude::*;
use crate::assertion_set::{Clause, Literal};

verus! {

/// `m` gives the variable of `l` the polarity of `l`.
pub open spec fn lit_true(m: Map<usize, bool>, l: Literal) -> bool {
    m.contains_key(l.id) && m[l.id] == l.value
}

/// `m` gives the variable of `l` the other polarity.
pub open spec fn lit_false(m: Map<usize, bool>, l: Literal) -> bool {
    m.contains_key(l.id) && m[l.id] != l.value
}

/// Some literal of `c` is true in `m`.
pub open spec fn clause_true(m: Map<usize, bool>, c: Seq<Literal>) -> bool {
    exists|j: int| 0 <= j < c.len() && lit_true(m, #[trigger] c[j])
}

/// Every literal of `c` is false in `m`.
pub open spec fn clause_false(m: Map<usize, bool>, c: Seq<Literal>) -> bool {
    forall|j: int| 0 <= j < c.len() ==> lit_false(m, #[trigger] c[j])
}

/// Every clause of `f` is true in `m`.
pub open spec fn models(m: Map<usize, bool>, f: Seq<Seq<Literal>>) -> bool {
    forall|i: int| 0 <= i < f.len() ==> clause_true(m, #[trigger] f[i])
}

/// Some valuation makes every clause of `f` true.
pub open spec fn satisfiable(f: Seq<Seq<Literal>>) -> bool {
    exists|m: Map<usize, bool>| models(m, f)
}

/// `l` is a literal of `c` that `m` leaves open, and `m` makes every other
/// literal of `c` false: `c` forces `l`.
pub open spec fn unit_in(m: Map<usize, bool>, c: Seq<Literal>, l: Literal) -> bool {
    &&& c.contains(l)
    &&& !m.contains_key(l.id)
    &&& forall|j: int| 0 <= j < c.len() && #[trigger] c[j] != l ==> lit_false(m, c[j])
}

/// `m` gives every variable a value.
pub open spec fn total(m: Map<usize, bool>) -> bool {
    forall|id: usize| #[trigger] m.contains_key(id)
}

/// `m`, with `false` for the variables it leaves open.
pub open spec fn completion(m: Map<usize, bool>) -> Map<usize, bool> {
    Map::new(|id: usize| true, |id: usize| m.contains_key(id) && m[id])
}

/// The clauses of a database as sequences of literals.
pub open spec fn formula(db: Seq<Clause>) -> Seq<Seq<Literal>> {
    Seq::new(db.len(), |i: int| db[i]@)
}

/// A partial model can be completed.
pub proof fn lemma_completion(m: Map<usize, bool>, f: Seq<Seq<Literal>>)
    requires
        models(m, f),
    ensures
        total(completion(m)),
        models(completion(m), f),
{
    let t = completion(m);
    assert forall|i: int| 0 <= i < f.len() implies clause_true(t, #[trigger] f[i]) by {
        assert(clause_true(m, f[i]));
        let j = choose|j: int| 0 <= j < f[i].len() && lit_true(m, #[trigger] f[i][j]);
        assert(lit_true(t, f[i][j]));
    }
}

/// A literal that is true stays true when more variables get values.
pub proof fn lemma_lit_extends(a: Map<usize, bool>, m: Map<usize, bool>, l: Literal)
    requires
        a.submap_of(m),
    ensures
        lit_true(a, l) ==> lit_true(m, l),
        lit_false(a, l) ==> lit_false(m, l),
{
    if a.dom().contains(l.id) {
        assert(m.dom().contains(l.id));
    }
}

} // verus!
