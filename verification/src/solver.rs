//! The verdict, the renaming of variables into a dense range, and the
//! exhaustive solver.

use std::collections::HashMap;
use vstd::prelude::*;
use itertools::Itertools;
use crate::assertion_set::{Clause, Literal};
use crate::model::{clause_true, formula, lit_true, models, satisfiable};
use crate::seqs::{ascending, distinct, lemma_distinct};

verus! {

/// The verdict on a clause database.
#[derive(Clone, Copy, Debug, PartialEq, Eq, Structural)]
pub enum Res {
    SAT,
    UNSAT,
}

impl Res {
    /// `"sat"` or `"unsat"`.
    pub fn as_ref(&self) -> (s: &'static str)
        ensures
            s@ == (match *self {
                Res::SAT => "sat"@,
                Res::UNSAT => "unsat"@,
            }),
    {
        match self {
            Res::SAT => "sat",
            Res::UNSAT => "unsat",
        }
    }

    /// `"sat"` or `"unsat"`.
    pub fn to_string(&self) -> (s: String)
        ensures
            s@ == (match *self {
                Res::SAT => "sat"@,
                Res::UNSAT => "unsat"@,
            }),
    {
        self.as_ref().to_owned()
    }
}

/// `Itertools::unique` of the itertools crate, on the elements of `values`
/// in their order: it passes on each element that it has not passed on
/// before, so that of equal elements the first stays, and keeps the order.
#[verifier::external_body]
fn unique_ids(values: Vec<usize>) -> (kept: Vec<usize>)
    ensures
        kept@ == distinct(values@),
{
    values.into_iter().unique().collect()
}

/// `sort` of std's slices on `values`: afterwards the same elements, each as
/// often as before, stand in ascending order.
#[verifier::external_body]
fn sort_ids(values: &mut Vec<usize>)
    ensures
        final(values)@.to_multiset() == old(values)@.to_multiset(),
        forall|a: int, b: int| 0 <= a <= b < final(values)@.len() ==> final(values)@[a] <= final(values)@[b],
{
    values.sort();
}

/// The literals of `c` with each variable replaced by the identifier that
/// `ids` holds at its place.
pub open spec fn restored(ids: Seq<usize>, c: Seq<Literal>) -> Seq<Literal> {
    Seq::new(c.len(), |j: int| Literal { value: c[j].value, id: ids[c[j].id as int] })
}

/// `out` is `given` with every identifier replaced by its place in `ids`.
pub open spec fn renamed(ids: Seq<usize>, given: Seq<Seq<Literal>>, out: Seq<Seq<Literal>>) -> bool {
    &&& out.len() == given.len()
    &&& forall|i: int, j: int|
        0 <= i < out.len() && 0 <= j < out[i].len() ==> (#[trigger] out[i][j]).id < ids.len()
    &&& forall|i: int| 0 <= i < out.len() ==> restored(ids, #[trigger] out[i]) == given[i]
}

/// Some clause of `f` holds a literal of variable `id`.
pub open spec fn occurs(f: Seq<Seq<Literal>>, id: usize) -> bool {
    exists|i: int, j: int| 0 <= i < f.len() && 0 <= j < f[i].len() && (#[trigger] f[i][j]).id == id
}

/// `ids` lists the identifiers that occur in `f`, in ascending order.
pub open spec fn lists_ids(ids: Seq<usize>, f: Seq<Seq<Literal>>) -> bool {
    &&& ascending(ids)
    &&& forall|id: usize| ids.contains(id) <==> occurs(f, id)
}

/// The identifiers that occur in `f`, in ascending order.
pub open spec fn ids_of(f: Seq<Seq<Literal>>) -> Seq<usize> {
    choose|ids: Seq<usize>| lists_ids(ids, f)
}

/// `f` with every identifier replaced by its place in `ids`.
pub open spec fn dense(ids: Seq<usize>, f: Seq<Seq<Literal>>) -> Seq<Seq<Literal>> {
    Seq::new(
        f.len(),
        |i: int|
            Seq::new(
                f[i].len(),
                |j: int| Literal { value: f[i][j].value, id: ids.index_of(f[i][j].id) as usize },
            ),
    )
}

/// Two ascending sequences of the same elements are the same.
pub proof fn lemma_ascending_unique(a: Seq<usize>, b: Seq<usize>)
    requires
        ascending(a),
        ascending(b),
        forall|id: usize| a.contains(id) <==> b.contains(id),
    ensures
        a == b,
    decreases a.len(),
{
    if a.len() == 0 {
        if b.len() > 0 {
            assert(b.contains(b[0]));
        }
        assert(a =~= b);
    } else {
        assert(a.contains(a.last()));
        assert(b.contains(a.last()));
        assert(b.len() > 0);
        assert(b.contains(b.last()));
        assert(a.contains(b.last()));
        let i = choose|i: int| 0 <= i < a.len() && a[i] == b.last();
        let j = choose|j: int| 0 <= j < b.len() && b[j] == a.last();
        if i < a.len() - 1 {
            assert(a[i] < a[a.len() - 1]);
        }
        if j < b.len() - 1 {
            assert(b[j] < b[b.len() - 1]);
        }
        assert(a.last() == b.last());
        let a2 = a.drop_last();
        let b2 = b.drop_last();
        assert forall|id: usize| a2.contains(id) <==> b2.contains(id) by {
            if a2.contains(id) {
                let k = choose|k: int| 0 <= k < a2.len() && a2[k] == id;
                assert(a[k] == id && a[k] < a[a.len() - 1]);
                assert(a.contains(id));
                let t = choose|t: int| 0 <= t < b.len() && b[t] == id;
                assert(t < b.len() - 1);
                assert(b2[t] == id);
            }
            if b2.contains(id) {
                let k = choose|k: int| 0 <= k < b2.len() && b2[k] == id;
                assert(b[k] == id && b[k] < b[b.len() - 1]);
                assert(b.contains(id));
                let t = choose|t: int| 0 <= t < a.len() && a[t] == id;
                assert(t < a.len() - 1);
                assert(a2[t] == id);
            }
        }
        assert(ascending(a2)) by {
            assert forall|x: int, y: int| 0 <= x < y < a2.len() implies a2[x] < a2[y] by {
                assert(a[x] < a[y]);
            }
        }
        assert(ascending(b2)) by {
            assert forall|x: int, y: int| 0 <= x < y < b2.len() implies b2[x] < b2[y] by {
                assert(b[x] < b[y]);
            }
        }
        lemma_ascending_unique(a2, b2);
        assert(a =~= a2.push(a.last()));
        assert(b =~= b2.push(b.last()));
    }
}

/// The renamed database is the dense form of the database, over the
/// identifiers that occur in it.
pub proof fn lemma_renamed_dense(ids: Seq<usize>, f: Seq<Seq<Literal>>, out: Seq<Seq<Literal>>)
    requires
        lists_ids(ids, f),
        renamed(ids, f, out),
    ensures
        ids == ids_of(f),
        out == dense(ids, f),
{
    let chosen = ids_of(f);
    assert(lists_ids(chosen, f));
    lemma_ascending_unique(ids, chosen);
    let d = dense(ids, f);
    assert forall|a: int, b: int| 0 <= a < ids.len() && 0 <= b < ids.len() && a != b implies ids[a]
        != ids[b] by {
        if a < b {
            assert(ids[a] < ids[b]);
        } else {
            assert(ids[b] < ids[a]);
        }
    }
    assert(out.len() == d.len());
    assert forall|i: int| 0 <= i < out.len() implies out[i] =~= d[i] by {
        assert(restored(ids, out[i]) == f[i]);
        assert(out[i].len() == f[i].len());
        assert forall|j: int| 0 <= j < out[i].len() implies out[i][j] == d[i][j] by {
            assert(restored(ids, out[i])[j] == f[i][j]);
            let v = out[i][j].id;
            assert(v < ids.len());
            assert(ids[v as int] == f[i][j].id);
            ids.index_of_first_ensures(f[i][j].id);
            assert(ids.contains(f[i][j].id));
            assert(ids.index_of(f[i][j].id) == v as int);
        }
    }
    assert(out =~= d);
}

/// The place of each identifier of `ids`.
fn ranks(ids: &Vec<usize>) -> (table: HashMap<usize, usize>)
    ensures
        forall|k: int| 0 <= k < ids@.len() ==> table@.contains_key(#[trigger] ids@[k]),
        forall|id: usize| #[trigger]
            table@.contains_key(id) ==> table@[id] < ids@.len() && ids@[table@[id] as int] == id,
{
    broadcast use vstd::std_specs::hash::group_hash_axioms;

    let mut table: HashMap<usize, usize> = HashMap::new();
    let mut k: usize = 0;
    while k < ids.len()
        invariant
            k <= ids@.len(),
            forall|t: int| 0 <= t < k ==> table@.contains_key(#[trigger] ids@[t]),
            forall|id: usize| #[trigger]
                table@.contains_key(id) ==> table@[id] < k && ids@[table@[id] as int] == id,
        decreases ids@.len() - k,
    {
        table.insert(ids[k], k);
        k += 1;
    }
    table
}

/// The place of `id` according to `table`.
fn rank_of(table: &HashMap<usize, usize>, id: usize) -> (r: usize)
    requires
        table@.contains_key(id),
    ensures
        r == table@[id],
{
    broadcast use vstd::std_specs::hash::group_hash_axioms;

    match table.get(&id) {
        Some(rank) => *rank,
        None => 0,
    }
}

/// Compresses the identifiers of a database into `0 .. n`. Returns the
/// identifiers that occur, in ascending order, and the database with each
/// identifier replaced by its place in that list. Going back through the
/// list gives the database that was handed in.
#[verifier::rlimit(40)]
pub fn rename(clauses: Vec<Clause>) -> (r: (Vec<usize>, Vec<Clause>))
    ensures
        r.0@ == ids_of(formula(clauses@)),
        formula(r.1@) == dense(r.0@, formula(clauses@)),
        ascending(r.0@),
        forall|id: usize| r.0@.contains(id) <==> occurs(formula(clauses@), id),
        renamed(r.0@, formula(clauses@), formula(r.1@)),
        forall|i: int| 0 <= i < clauses@.len() && clauses@[i].wf() ==> (#[trigger] r.1@[i]).wf(),
{
    let ghost given = formula(clauses@);
    let mut all: Vec<usize> = Vec::new();
    let mut i: usize = 0;
    while i < clauses.len()
        invariant
            i <= clauses@.len(),
            forall|a: int, b: int|
                0 <= a < i && 0 <= b < clauses@[a]@.len() ==> all@.contains((#[trigger] clauses@[a]@[b]).id),
            forall|k: int| 0 <= k < all@.len() ==> occurs(formula(clauses@), #[trigger] all@[k]),
        decreases clauses@.len() - i,
    {
        let clause = &clauses[i];
        let mut j: usize = 0;
        while j < clause.literals.len()
            invariant
                i < clauses@.len(),
                clause == clauses@[i as int],
                j <= clause@.len(),
                forall|a: int, b: int|
                    0 <= a < i && 0 <= b < clauses@[a]@.len() ==> all@.contains(
                        (#[trigger] clauses@[a]@[b]).id,
                    ),
                forall|b: int| 0 <= b < j ==> all@.contains((#[trigger] clause@[b]).id),
                forall|k: int| 0 <= k < all@.len() ==> occurs(formula(clauses@), #[trigger] all@[k]),
            decreases clause@.len() - j,
        {
            let ghost before = all@;
            all.push(clause.literals[j].id);
            proof {
                assert forall|x: usize| before.contains(x) implies all@.contains(x) by {
                    let k = choose|k: int| 0 <= k < before.len() && before[k] == x;
                    assert(all@[k] == x);
                }
                assert(all@[before.len() as int] == clause@[j as int].id);
                assert(formula(clauses@)[i as int][j as int].id == clause@[j as int].id);
            }
            j += 1;
        }
        i += 1;
    }
    let ghost listed = all@;
    let mut ids = unique_ids(all);
    let ghost picked = ids@;
    sort_ids(&mut ids);
    proof {
        lemma_distinct(listed);
        picked.lemma_multiset_has_no_duplicates();
        broadcast use vstd::seq_lib::to_multiset_contains;

        assert forall|x: usize| ids@.to_multiset().contains(x) implies ids@.to_multiset().count(x)
            == 1 by {}
        ids@.lemma_multiset_has_no_duplicates_conv();
        assert(ascending(ids@)) by {
            assert forall|a: int, b: int| 0 <= a < b < ids@.len() implies ids@[a] < ids@[b] by {
                assert(ids@[a] <= ids@[b]);
            }
        }
        assert forall|id: usize| ids@.contains(id) <==> occurs(given, id) by {
            vstd::seq_lib::to_multiset_contains(ids@, id);
            vstd::seq_lib::to_multiset_contains(picked, id);
            assert(ids@.contains(id) <==> picked.contains(id));
            assert(picked.contains(id) <==> listed.contains(id));
            if listed.contains(id) {
                let k = choose|k: int| 0 <= k < listed.len() && listed[k] == id;
                assert(occurs(given, listed[k]));
            }
            if occurs(given, id) {
                let (a, b) = choose|a: int, b: int|
                    0 <= a < given.len() && 0 <= b < given[a].len() && (#[trigger] given[a][b]).id == id;
                assert(listed.contains(clauses@[a]@[b].id));
            }
        }
    }
    let id_to_rank = ranks(&ids);
    let mut out: Vec<Clause> = Vec::new();
    let mut i: usize = 0;
    while i < clauses.len()
        invariant
            i <= clauses@.len(),
            out@.len() == i,
            given == formula(clauses@),
            ascending(ids@),
            forall|k: int| 0 <= k < ids@.len() ==> id_to_rank@.contains_key(#[trigger] ids@[k]),
            forall|id: usize| #[trigger]
                id_to_rank@.contains_key(id) ==> id_to_rank@[id] < ids@.len() && ids@[id_to_rank@[id] as int]
                    == id,
            forall|id: usize| ids@.contains(id) <==> occurs(given, id),
            forall|a: int, b: int|
                0 <= a < i && 0 <= b < out@[a]@.len() ==> (#[trigger] out@[a]@[b]).id < ids@.len(),
            forall|a: int| 0 <= a < i ==> restored(ids@, (#[trigger] out@[a])@) == given[a],
        decreases clauses@.len() - i,
    {
        let clause = &clauses[i];
        let mut lits: Vec<Literal> = Vec::new();
        let mut j: usize = 0;
        while j < clause.literals.len()
            invariant
                i < clauses@.len(),
                clause == clauses@[i as int],
                given == formula(clauses@),
                j <= clause@.len(),
                lits@.len() == j,
                ascending(ids@),
                forall|k: int| 0 <= k < ids@.len() ==> id_to_rank@.contains_key(#[trigger] ids@[k]),
                forall|id: usize| #[trigger]
                    id_to_rank@.contains_key(id) ==> id_to_rank@[id] < ids@.len() && ids@[id_to_rank@[id] as int]
                        == id,
                forall|id: usize| ids@.contains(id) <==> occurs(given, id),
                forall|b: int|
                    0 <= b < j ==> (#[trigger] lits@[b]).id < ids@.len() && lits@[b].value
                        == clause@[b].value && ids@[lits@[b].id as int] == clause@[b].id,
            decreases clause@.len() - j,
        {
            let l = clause.literals[j];
            proof {
                assert(given[i as int][j as int].id == l.id);
                assert(occurs(given, l.id));
                assert(ids@.contains(l.id));
                let k = choose|k: int| 0 <= k < ids@.len() && ids@[k] == l.id;
                assert(id_to_rank@.contains_key(ids@[k]));
            }
            let r = rank_of(&id_to_rank, l.id);
            lits.push(Literal { value: l.value, id: r });
            j += 1;
        }
        proof {
            assert(restored(ids@, lits@) =~= clause@);
        }
        out.push(Clause { literals: lits });
        i += 1;
    }
    proof {
        assert forall|i: int| 0 <= i < clauses@.len() && clauses@[i].wf() implies (#[trigger] out@[i]).wf() by {
            let c = out@[i]@;
            let g = clauses@[i]@;
            assert(restored(ids@, c) == given[i]);
            assert forall|x: int, y: int| 0 <= x < c.len() && 0 <= y < c.len() && x != y implies c[x]
                != c[y] by {
                assert(restored(ids@, c)[x] == g[x]);
                assert(restored(ids@, c)[y] == g[y]);
            }
        }
        assert(renamed(ids@, given, formula(out@))) by {
            assert forall|a: int, b: int|
                0 <= a < formula(out@).len() && 0 <= b < formula(out@)[a].len() implies (#[trigger] formula(
                out@,
            )[a][b]).id < ids@.len() by {
                assert(out@[a]@[b].id < ids@.len());
            }
        }
        lemma_renamed_dense(ids@, given, formula(out@));
    }
    (ids, out)
}


/// A model of a renamed database, taken back to the identifiers.
pub open spec fn model_back(ids: Seq<usize>, m: Map<usize, bool>) -> Map<usize, bool> {
    Map::new(
        |id: usize| exists|v: int| 0 <= v < ids.len() && ids[v] == id && m.contains_key(v as usize),
        |id: usize| m[ids.index_of(id) as usize],
    )
}

/// A model of a database, taken over to the renamed variables.
pub open spec fn model_over(ids: Seq<usize>, m: Map<usize, bool>) -> Map<usize, bool> {
    Map::new(
        |v: usize| v < ids.len() && m.contains_key(ids[v as int]),
        |v: usize| m[ids[v as int]],
    )
}

/// Renaming keeps the models: a database and its renamed form are
/// satisfied by the same valuations, taken over and back.
pub proof fn lemma_renamed_models(
    ids: Seq<usize>,
    given: Seq<Seq<Literal>>,
    out: Seq<Seq<Literal>>,
    m: Map<usize, bool>,
)
    requires
        ascending(ids),
        ids.len() <= usize::MAX,
        renamed(ids, given, out),
    ensures
        models(m, out) ==> models(model_back(ids, m), given),
        models(m, given) ==> models(model_over(ids, m), out),
{
    assert forall|a: int, b: int| 0 <= a < ids.len() && 0 <= b < ids.len() && a != b implies ids[a]
        != ids[b] by {
        if a < b {
            assert(ids[a] < ids[b]);
        } else {
            assert(ids[b] < ids[a]);
        }
    }
    if models(m, out) {
        let back = model_back(ids, m);
        assert forall|i: int| 0 <= i < given.len() implies clause_true(back, #[trigger] given[i]) by {
            assert(clause_true(m, out[i]));
            assert(restored(ids, out[i]) == given[i]);
            let j = choose|j: int| 0 <= j < out[i].len() && lit_true(m, #[trigger] out[i][j]);
            let v = out[i][j].id;
            assert(restored(ids, out[i])[j] == given[i][j]);
            assert(ids[v as int] == given[i][j].id);
            ids.index_of_first_ensures(given[i][j].id);
            assert(ids.contains(given[i][j].id));
            assert(ids.index_of(given[i][j].id) == v as int);
            assert(lit_true(back, given[i][j]));
        }
    }
    if models(m, given) {
        let over = model_over(ids, m);
        assert forall|i: int| 0 <= i < out.len() implies clause_true(over, #[trigger] out[i]) by {
            assert(clause_true(m, given[i]));
            assert(restored(ids, out[i]) == given[i]);
            let j = choose|j: int| 0 <= j < given[i].len() && lit_true(m, #[trigger] given[i][j]);
            assert(restored(ids, out[i])[j] == given[i][j]);
            assert(out[i][j].id < ids.len());
            assert(lit_true(over, out[i][j]));
        }
    }
}

/// A database and its renamed form are satisfiable together.
pub proof fn lemma_renamed_satisfiable(ids: Seq<usize>, given: Seq<Seq<Literal>>, out: Seq<Seq<Literal>>)
    requires
        ascending(ids),
        ids.len() <= usize::MAX,
        renamed(ids, given, out),
    ensures
        satisfiable(given) <==> satisfiable(out),
{
    if satisfiable(given) {
        let m = choose|m: Map<usize, bool>| models(m, given);
        lemma_renamed_models(ids, given, out, m);
    }
    if satisfiable(out) {
        let m = choose|m: Map<usize, bool>| models(m, out);
        lemma_renamed_models(ids, given, out, m);
    }
}

/// Under the partial assignment `a`, some literal of `c` is true or open.
pub open spec fn pending(a: Seq<Option<bool>>, c: Seq<Literal>) -> bool {
    exists|j: int|
        0 <= j < c.len() && (a[(#[trigger] c[j]).id as int] is None || a[c[j].id as int] == Some(
            c[j].value,
        ))
}

/// The solver that tries every assignment.
pub struct SATSolver {
    ids: Vec<usize>,
    clauses: Vec<Clause>,
    pub assignments: Vec<Option<bool>>,
}

impl SATSolver {
    /// The identifier that each variable stands for.
    pub closed spec fn names(&self) -> Seq<usize> {
        self.ids@
    }

    /// The clauses, over the variables `0 .. names().len()`.
    pub closed spec fn db(&self) -> Seq<Clause> {
        self.clauses@
    }

    /// The value of each variable, where it has one.
    pub closed spec fn partial(&self) -> Seq<Option<bool>> {
        self.assignments@
    }

    /// Every variable of every clause has a place in the assignment.
    pub open spec fn wf(&self) -> bool {
        &&& self.partial().len() == self.names().len()
        &&& forall|i: int, j: int|
            0 <= i < self.db().len() && 0 <= j < self.db()[i]@.len() ==> (#[trigger] self.db()[i]@[j]).id
                < self.names().len()
    }

    /// No clause is false under `a`.
    pub open spec fn admits(&self, a: Seq<Option<bool>>) -> bool {
        forall|i: int| 0 <= i < self.db().len() ==> pending(a, #[trigger] self.db()[i]@)
    }

    /// `full` gives every variable a value and agrees with the current
    /// assignment on the variables below `cur`.
    pub open spec fn completes(&self, full: Seq<Option<bool>>, cur: int) -> bool {
        &&& full.len() == self.partial().len()
        &&& forall|v: int| 0 <= v < cur && v < full.len() ==> #[trigger] full[v] == self.partial()[v]
        &&& forall|v: int| cur <= v < full.len() ==> (#[trigger] full[v]) is Some
    }

    /// Renames the database and leaves every variable open.
    pub fn new(clauses: Vec<Clause>) -> (s: SATSolver)
        ensures
            s.wf(),
            ascending(s.names()),
            forall|id: usize| s.names().contains(id) <==> occurs(formula(clauses@), id),
            renamed(s.names(), formula(clauses@), formula(s.db())),
            forall|v: int| 0 <= v < s.partial().len() ==> (#[trigger] s.partial()[v]) is None,
    {
        let (ids, clauses) = rename(clauses);
        let len = ids.len();
        let mut assignments: Vec<Option<bool>> = Vec::new();
        let mut v: usize = 0;
        while v < len
            invariant
                v <= len,
                assignments@.len() == v,
                forall|w: int| 0 <= w < v ==> (#[trigger] assignments@[w]) is None,
            decreases len - v,
        {
            assignments.push(None);
            v += 1;
        }
        let s = SATSolver { ids, clauses, assignments };
        proof {
            assert forall|i: int, j: int|
                0 <= i < s.db().len() && 0 <= j < s.db()[i]@.len() implies (#[trigger] s.db()[i]@[j]).id
                < s.names().len() by {
                assert(formula(s.db())[i][j].id < s.names().len());
            }
        }
        s
    }

    /// Each identifier with the value of its variable.
    pub fn get_assignments(&self) -> (r: Vec<(usize, Option<bool>)>)
        requires
            self.wf(),
        ensures
            r@.len() == self.names().len(),
            forall|v: int|
                0 <= v < r@.len() ==> #[trigger] r@[v] == (self.names()[v], self.partial()[v]),
    {
        let mut r: Vec<(usize, Option<bool>)> = Vec::new();
        let mut v: usize = 0;
        while v < self.ids.len()
            invariant
                self.wf(),
                v <= self.ids@.len(),
                r@.len() == v,
                forall|w: int| 0 <= w < v ==> #[trigger] r@[w] == (self.ids@[w], self.assignments@[w]),
            decreases self.ids@.len() - v,
        {
            r.push((self.ids[v], self.assignments[v]));
            v += 1;
        }
        r
    }

    /// Whether some literal of `clause` is true or open.
    pub fn check_clause(&self, clause: &Clause) -> (b: bool)
        requires
            forall|j: int| 0 <= j < clause@.len() ==> (#[trigger] clause@[j]).id < self.partial().len(),
        ensures
            b == pending(self.partial(), clause@),
    {
        let mut j: usize = 0;
        while j < clause.literals.len()
            invariant
                j <= clause@.len(),
                forall|t: int| 0 <= t < clause@.len() ==> (#[trigger] clause@[t]).id < self.assignments@.len(),
                forall|t: int|
                    0 <= t < j ==> !(self.assignments@[(#[trigger] clause@[t]).id as int] is None
                        || self.assignments@[clause@[t].id as int] == Some(clause@[t].value)),
            decreases clause@.len() - j,
        {
            let l = clause.literals[j];
            assert(clause@[j as int].id < self.assignments@.len());
            match self.assignments[l.id] {
                None => {
                    return true;
                },
                Some(value) => {
                    if value == l.value {
                        return true;
                    }
                },
            }
            j += 1;
        }
        false
    }

    /// Whether no clause is false under the current assignment.
    fn no_conflict(&self) -> (b: bool)
        requires
            self.wf(),
        ensures
            b == self.admits(self.partial()),
    {
        let mut i: usize = 0;
        while i < self.clauses.len()
            invariant
                self.wf(),
                i <= self.clauses@.len(),
                forall|t: int| 0 <= t < i ==> pending(self.assignments@, #[trigger] self.clauses@[t]@),
            decreases self.clauses@.len() - i,
        {
            proof {
                let c = self.clauses@[i as int];
                assert forall|j: int| 0 <= j < c@.len() implies (#[trigger] c@[j]).id < self.partial().len() by {
                    assert(self.db()[i as int]@[j].id < self.names().len());
                }
            }
            if !self.check_clause(&self.clauses[i]) {
                assert(!pending(self.partial(), self.db()[i as int]@));
                return false;
            }
            i += 1;
        }
        true
    }

    /// An assignment that is less defined admits what a more defined one admits.
    proof fn lemma_admits_less(&self, less: Seq<Option<bool>>, more: Seq<Option<bool>>)
        requires
            self.admits(more),
            less.len() == more.len(),
            less.len() == self.names().len(),
            self.partial().len() == self.names().len(),
            self.wf(),
            forall|v: int| 0 <= v < less.len() ==> (#[trigger] less[v]) is None || less[v] == more[v],
        ensures
            self.admits(less),
    {
        assert forall|i: int| 0 <= i < self.db().len() implies pending(less, #[trigger] self.db()[i]@) by {
            let c = self.db()[i]@;
            assert(pending(more, c));
            let j = choose|j: int|
                0 <= j < c.len() && (more[(#[trigger] c[j]).id as int] is None || more[c[j].id as int]
                    == Some(c[j].value));
            assert(self.db()[i]@[j].id < self.names().len());
            assert(less[c[j].id as int] is None || less[c[j].id as int] == more[c[j].id as int]);
        }
    }

    /// Tries both values of the variables from `cur` on, `false` first, and
    /// gives up a value as soon as it makes a clause false. Leaves the
    /// assignment as it found it. With no variable left to try it looks at
    /// the clauses once more. The answer is `SAT` exactly if the variables
    /// from `cur` on can be given values under which no clause is false.
    #[verifier::rlimit(40)]
    pub fn solve_i(&mut self, cur: usize) -> (r: Res)
        requires
            old(self).wf(),
            cur <= old(self).partial().len(),
            forall|v: int| cur <= v < old(self).partial().len() ==> (#[trigger] old(self).partial()[v]) is None,
        ensures
            final(self).partial() == old(self).partial(),
            final(self).db() == old(self).db(),
            final(self).names() == old(self).names(),
            r == Res::SAT <==> exists|full: Seq<Option<bool>>|
                old(self).completes(full, cur as int) && #[trigger] old(self).admits(full),
        decreases old(self).partial().len() - cur,
    {
        if cur == self.assignments.len() {
            let quiet = self.no_conflict();
            proof {
                let here = self.partial();
                if quiet {
                    assert(self.completes(here, cur as int));
                } else {
                    assert forall|full: Seq<Option<bool>>| self.completes(full, cur as int) implies !#[trigger] self.admits(
                        full,
                    ) by {
                        assert(full =~= here);
                    }
                }
            }
            return if quiet {
                Res::SAT
            } else {
                Res::UNSAT
            };
        }
        let ghost start = *self;
        let next = cur + 1;
        let ghost n = self.assignments@.len();
        self.assignments.set(cur, Some(false));
        let ghost low = *self;
        proof {
            assert(self.db() == start.db() && self.names() == start.names());
            assert(self.partial() == start.partial().update(cur as int, Some(false)));
            assert(self.wf());
        }
        let quiet_low = self.no_conflict();
        let low_res = if quiet_low {
            self.solve_i(next)
        } else {
            Res::UNSAT
        };
        let ghost low_sat = low_res == Res::SAT;
        proof {
            assert(self.assignments@ == low.assignments@);
            if low_sat {
                let full = choose|full: Seq<Option<bool>>|
                    low.completes(full, next as int) && #[trigger] low.admits(full);
                assert(start.completes(full, cur as int));
                assert(start.admits(full));
            }
        }
        let res = if low_res == Res::SAT {
            Res::SAT
        } else {
            self.assignments.set(cur, Some(true));
            let ghost high = *self;
            proof {
                assert(self.db() == start.db() && self.names() == start.names());
                assert(self.partial() == start.partial().update(cur as int, Some(true)));
                assert(self.wf());
            }
            let quiet_high = self.no_conflict();
            let high_res = if quiet_high {
                self.solve_i(next)
            } else {
                Res::UNSAT
            };
            proof {
                assert(self.assignments@ == high.assignments@);
                if high_res == Res::SAT {
                    let full = choose|full: Seq<Option<bool>>|
                        high.completes(full, next as int) && #[trigger] high.admits(full);
                    assert(start.completes(full, cur as int));
                    assert(start.admits(full));
                } else {
                    assert forall|full: Seq<Option<bool>>| start.completes(full, cur as int) implies !#[trigger] start.admits(
                        full,
                    ) by {
                        if start.admits(full) {
                            assert(full[cur as int] is Some);
                            let side = if full[cur as int] == Some(false) {
                                low
                            } else {
                                high
                            };
                            assert(side.completes(full, next as int)) by {
                                assert forall|v: int| 0 <= v < next && v < full.len() implies #[trigger] full[v]
                                    == side.partial()[v] by {
                                    if v < cur {
                                        assert(full[v] == start.partial()[v]);
                                    }
                                }
                            }
                            assert(side.admits(full));
                            assert forall|v: int| 0 <= v < n implies (#[trigger] side.partial()[v]) is None
                                || side.partial()[v] == full[v] by {
                                if v < next {
                                    assert(full[v] == side.partial()[v]);
                                } else {
                                    assert(start.partial()[v] is None);
                                }
                            }
                            side.lemma_admits_less(side.partial(), full);
                            assert(side.admits(side.partial()));
                        }
                    }
                }
            }
            high_res
        };
        self.assignments.set(cur, None);
        proof {
            assert(self.assignments@ =~= start.assignments@);
        }
        res
    }

    /// Whether the database can be satisfied, by trying every assignment.
    pub fn solve(&mut self) -> (r: Res)
        requires
            old(self).wf(),
            forall|v: int| 0 <= v < old(self).partial().len() ==> (#[trigger] old(self).partial()[v]) is None,
        ensures
            final(self).partial() == old(self).partial(),
            final(self).db() == old(self).db(),
            final(self).names() == old(self).names(),
            r == Res::SAT <==> satisfiable(formula(old(self).db())),
    {
        let r = self.solve_i(0);
        proof {
            let f = formula(old(self).db());
            let n = old(self).partial().len();
            if r == Res::SAT {
                let full = choose|full: Seq<Option<bool>>|
                    old(self).completes(full, 0) && #[trigger] old(self).admits(full);
                let m = Map::new(|v: usize| v < n, |v: usize| full[v as int]->0);
                assert forall|i: int| 0 <= i < f.len() implies clause_true(m, #[trigger] f[i]) by {
                    let c = old(self).db()[i]@;
                    assert(pending(full, c));
                    let j = choose|j: int|
                        0 <= j < c.len() && (full[(#[trigger] c[j]).id as int] is None || full[c[j].id as int]
                            == Some(c[j].value));
                    assert(old(self).db()[i]@[j].id < n);
                    assert(full[c[j].id as int] is Some);
                    assert(lit_true(m, c[j]));
                }
                assert(models(m, f));
            }
            if satisfiable(f) {
                let m0 = choose|m: Map<usize, bool>| models(m, f);
                crate::model::lemma_completion(m0, f);
                let m = crate::model::completion(m0);
                let full = Seq::new(n, |v: int| Some(m[v as usize]));
                assert(old(self).completes(full, 0));
                assert forall|i: int| 0 <= i < old(self).db().len() implies pending(
                    full,
                    #[trigger] old(self).db()[i]@,
                ) by {
                    let c = old(self).db()[i]@;
                    assert(f[i] == c);
                    assert(clause_true(m, f[i]));
                    let j = choose|j: int| 0 <= j < c.len() && lit_true(m, #[trigger] c[j]);
                    assert(old(self).db()[i]@[j].id < n);
                }
                assert(old(self).admits(full));
            }
        }
        r
    }
}

} // verus!
