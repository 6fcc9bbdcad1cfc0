//! The conflict-driven clause-learning engine.

use std::collections::{HashMap, HashSet};
use vstd::prelude::*;
use crate::assertion_set::{well_formed, Clause, Literal};
use crate::model::{
    clause_false, clause_true, formula, lit_false, lit_true, models, satisfiable, total, unit_in,
};
use crate::preprocess::{
    lists, minimize_cur_clauses, minimized, minimized_db, minimized_upto, propagate_units,
    unit_log, unit_run, untouched, watch_map, WatchMap,
};
use crate::search::{
    first_conflict, forced_in, initial, lemma_first_conflict, lemma_forced_in, literal_pairs,
    model_of, pairs, units_upto, Snapshot,
};
use crate::seqs::ascending;
use crate::theorems::{
    gentle, lemma_minimized_part, lemma_preprocessing_preserves, lemma_spares_outlives,
    lemma_unit_run_untouched, meets_pair, outlives, spares,
};
use crate::solver::{dense, ids_of, model_back, occurs, rename, renamed, Res};

verus! {

/// The value of an assigned variable, the clause that forced it (none for a
/// decision) and the decision level at which it was assigned.
#[derive(Clone, Copy, Debug, PartialEq, Eq, Hash)]
pub struct Assignment {
    pub value: bool,
    pub clause: Option<usize>,
    pub decision_level: usize,
}

impl Assignment {
    /// The record of a variable that got `value` at `decision_level`, forced by
    /// `clause` or, without one, decided.
    pub fn new(value: bool, clause: Option<usize>, decision_level: usize) -> (a: Assignment)
        ensures
            a == (Assignment { value, clause, decision_level }),
    {
        Assignment { value, clause, decision_level }
    }

    /// Whether the variable was decided: its value has no antecedent.
    pub fn is_decision_node(&self) -> (b: bool)
        ensures
            b == (self.clause is None),
    {
        self.clause.is_none()
    }
}

/// In how many clauses of `f` the literal `l` occurs.
pub open spec fn occurrences(f: Seq<Seq<Literal>>, l: Literal) -> nat
    decreases f.len(),
{
    if f.len() == 0 {
        0
    } else {
        occurrences(f.drop_last(), l) + if f.last().contains(l) {
            1nat
        } else {
            0nat
        }
    }
}

/// A clause of a database over the variables `0 .. n`: not empty, no literal
/// twice, every variable below `n`.
pub open spec fn clause_ok(c: Seq<Literal>, n: nat) -> bool {
    &&& c.len() > 0
    &&& c.no_duplicates()
    &&& forall|j: int| 0 <= j < c.len() ==> (#[trigger] c[j]).id < n
}

/// The search engine: a clause database over the variables `0 .. n`, the
/// assignment with its trail and decision levels, and the counts of the
/// literals.
pub struct CDCLSolver {
    ids: Vec<usize>,
    pub clauses: Vec<Clause>,
    assignments: HashMap<usize, Assignment>,
    trail: Vec<usize>,
    decision_nodes: Vec<usize>,
    positive: Vec<usize>,
    negative: Vec<usize>,
    res: Option<Res>,
    watcher: WatchMap,
    forced: Vec<Literal>,
    given: Ghost<Seq<Seq<Literal>>>,
    source: Ghost<Seq<Seq<Literal>>>,
}

/// For each of the variables `0 .. n`, whether it is in `visited`.
#[verifier::opaque]
pub open spec fn marks_of(visited: Set<usize>, n: nat) -> Seq<bool> {
    Seq::new(n, |v: int| visited.contains(v as usize))
}

/// Whether the variable `v` is in `visited`.
fn marked_at(visited: &HashSet<usize>, v: usize, n: usize) -> (b: bool)
    requires
        v < n,
    ensures
        b == marks_of(visited@, n as nat)[v as int],
{
    broadcast use vstd::std_specs::hash::group_hash_axioms;

    let b = visited.contains(&v);
    proof {
        reveal(marks_of);
    }
    b
}

/// Puts the variable `v` into `visited`.
fn mark(visited: &mut HashSet<usize>, v: usize, n: usize)
    requires
        v < n,
    ensures
        marks_of(final(visited)@, n as nat) == marks_of(old(visited)@, n as nat).update(v as int, true),
{
    broadcast use vstd::std_specs::hash::group_hash_axioms;

    visited.insert(v);
    proof {
        reveal(marks_of);
        let now = marks_of(visited@, n as nat);
        let want = marks_of(old(visited)@, n as nat).update(v as int, true);
        assert forall|w: int| 0 <= w < n implies now[w] == want[w] by {
            if w != v as int {
                assert(w as usize != v);
            }
        }
        assert(now =~= want);
    }
}

/// The records of the variables `0 .. n` in the table `table`: for each
/// variable its entry, if it has one.
#[verifier::opaque]
pub open spec fn records_of(table: Map<usize, Assignment>, n: nat) -> Seq<Option<Assignment>> {
    Seq::new(
        n,
        |v: int|
            if table.contains_key(v as usize) {
                Some(table[v as usize])
            } else {
                None
            },
    )
}

impl CDCLSolver {
    /// The record of each variable, if it is assigned.
    pub closed spec fn records(&self) -> Seq<Option<Assignment>> {
        records_of(self.assignments@, self.ids@.len())
    }

    /// The record of the variable `v`.
    fn record_at(&self, v: usize) -> (r: Option<Assignment>)
        requires
            v < self.ids@.len(),
        ensures
            r == self.records()[v as int],
    {
        broadcast use vstd::std_specs::hash::group_hash_axioms;

        let r = match self.assignments.get(&v) {
            Some(a) => Some(*a),
            None => None,
        };
        proof {
            reveal(records_of);
        }
        r
    }

    /// Enters `a` as the record of the variable `v`, or takes its record
    /// away where `a` is none.
    fn set_record(&mut self, v: usize, a: Option<Assignment>)
        requires
            v < old(self).ids@.len(),
        ensures
            final(self).records() == old(self).records().update(v as int, a),
            final(self).ids == old(self).ids,
            final(self).clauses == old(self).clauses,
            final(self).trail == old(self).trail,
            final(self).decision_nodes == old(self).decision_nodes,
            final(self).positive == old(self).positive,
            final(self).negative == old(self).negative,
            final(self).res == old(self).res,
            final(self).watcher == old(self).watcher,
            final(self).forced == old(self).forced,
            final(self).given == old(self).given,
            final(self).source == old(self).source,
    {
        broadcast use vstd::std_specs::hash::group_hash_axioms;

        let size: usize = self.ids.len();
        match a {
            Some(record) => {
                self.assignments.insert(v, record);
                assert(self.assignments@ == old(self).assignments@.insert(v, record));
            },
            None => {
                self.assignments.remove(&v);
                assert(self.assignments@ == old(self).assignments@.remove(v));
            },
        }
        proof {
            reveal(records_of);
            let n = self.ids@.len();
            let now = self.records();
            let want = old(self).records().update(v as int, a);
            assert(now.len() == n && want.len() == n && n == size);
            assert forall|w: int| 0 <= w < n implies now[w] == want[w] by {
                if w != v as int {
                    assert(w as usize != v);
                }
            }
            assert(now =~= want);
        }
    }

    /// The number of variables.
    pub closed spec fn n(&self) -> nat {
        self.ids@.len()
    }

    /// The clauses: those given, then those learned.
    pub closed spec fn db(&self) -> Seq<Clause> {
        self.clauses@
    }

    /// The identifier that each variable stands for.
    pub closed spec fn names(&self) -> Seq<usize> {
        self.ids@
    }

    /// The literals that the preprocessor's unit clauses forced, over the
    /// identifiers of the database that the engine was made from.
    pub closed spec fn units(&self) -> Seq<Literal> {
        self.forced@
    }

    /// The database that the engine was made from, before preprocessing.
    pub closed spec fn source(&self) -> Seq<Seq<Literal>> {
        self.source@
    }

    /// The current decision level.
    pub closed spec fn level(&self) -> int {
        self.decision_nodes@.len() - 1
    }

    /// The decision stack's entry for level `d`: the variable that was
    /// decided to open that level, and 0 for level 0.
    pub closed spec fn node(&self, d: int) -> usize {
        self.decision_nodes@[d]
    }

    /// The assigned variables, in the order in which they were assigned.
    pub closed spec fn trail(&self) -> Seq<usize> {
        self.trail@
    }

    /// The record of variable `v`, if it is assigned.
    pub closed spec fn record(&self, v: int) -> Option<Assignment> {
        self.records()[v]
    }

    /// The record of the `k`-th variable of the trail.
    pub closed spec fn entry(&self, k: int) -> Assignment {
        self.records()[self.trail@[k] as int]->0
    }

    /// The current partial assignment.
    pub closed spec fn valuation(&self) -> Map<usize, bool> {
        Map::new(
            |v: usize| v < self.records().len() && self.records()[v as int] is Some,
            |v: usize| (self.records()[v as int]->0).value,
        )
    }

    /// The database that the engine was made for, before it learned anything.
    pub closed spec fn given(&self) -> Seq<Seq<Literal>> {
        self.given@
    }

    /// The watch map.
    pub closed spec fn watcher(&self) -> WatchMap {
        self.watcher
    }

    /// The state of the search.
    pub closed spec fn snapshot(&self) -> Snapshot {
        Snapshot {
            db: formula(self.clauses@),
            records: self.records(),
            trail: self.trail@,
            nodes: self.decision_nodes@,
        }
    }

    /// The clause `c` forced the `k`-th variable of the trail: it holds that
    /// variable's literal, and each of its other literals was false before.
    pub closed spec fn forced_by(&self, k: int, c: int) -> bool {
        &&& 0 <= c < self.clauses@.len()
        &&& self.clauses@[c]@.contains(
            Literal { value: self.entry(k).value, id: self.trail@[k] },
        )
        &&& forall|j: int|
            0 <= j < self.clauses@[c]@.len() && #[trigger] self.clauses@[c]@[j] != (Literal {
                value: self.entry(k).value,
                id: self.trail@[k],
            }) ==> self.earlier_false(k, self.clauses@[c]@[j])
    }

    /// `l` is false by a variable that stands before position `k` of the trail.
    pub closed spec fn earlier_false(&self, k: int, l: Literal) -> bool {
        exists|e: int|
            0 <= e < k && #[trigger] self.trail@[e] == l.id && self.entry(e).value != l.value
    }

    /// The tables have the size of the variables, the levels fit the trail,
    /// and every clause is a clause over the variables.
    pub closed spec fn shape_ok(&self) -> bool {
        &&& ascending(self.ids@)
        &&& self.records().len() == self.n()
        &&& self.decision_nodes@.len() >= 1
        &&& self.level() <= self.trail@.len() <= self.n()
        &&& forall|i: int|
            0 <= i < self.clauses@.len() ==> clause_ok(#[trigger] self.clauses@[i]@, self.n())
    }

    /// The trail holds the assigned variables, each once.
    pub closed spec fn trail_ok(&self) -> bool {
        &&& self.trail@.no_duplicates()
        &&& forall|k: int|
            0 <= k < self.trail@.len() ==> (#[trigger] self.trail@[k]) < self.n()
                && self.records()[self.trail@[k] as int] is Some
        &&& forall|v: usize|
            v < self.n() && (#[trigger] self.records()[v as int]) is Some ==> self.trail@.contains(v)
    }

    /// The levels rise along the trail, up to the current level.
    pub closed spec fn levels_ok(&self) -> bool {
        &&& forall|k: int|
            0 <= k < self.trail@.len() ==> (#[trigger] self.entry(k)).decision_level
                <= self.level() && self.entry(k).decision_level <= k + 1
        &&& forall|k1: int, k2: int|
            0 <= k1 <= k2 < self.trail@.len() ==> (#[trigger] self.entry(k1)).decision_level <= (
            #[trigger] self.entry(k2)).decision_level
    }

    /// Every antecedent forced its variable, and every other variable is the
    /// decision of its level.
    pub closed spec fn reasons_ok(&self) -> bool {
        forall|k: int|
            0 <= k < self.trail@.len() ==> match (#[trigger] self.entry(k)).clause {
                Some(c) => self.forced_by(k, c as int),
                None => self.entry(k).decision_level >= 1 && self.decision_nodes@[self.entry(
                    k,
                ).decision_level as int] == self.trail@[k],
            }
    }

    /// The counts are those of the literals in the clauses, and every variable
    /// occurs.
    pub closed spec fn counts_ok(&self) -> bool {
        &&& self.positive@.len() == self.n()
        &&& self.negative@.len() == self.n()
        &&& forall|v: usize|
            v < self.n() ==> (#[trigger] self.positive@[v as int]) == occurrences(
                formula(self.clauses@),
                Literal { value: true, id: v },
            )
        &&& forall|v: usize|
            v < self.n() ==> (#[trigger] self.negative@[v as int]) == occurrences(
                formula(self.clauses@),
                Literal { value: false, id: v },
            )
        &&& forall|v: usize|
            v < self.n() ==> (#[trigger] self.positive@[v as int]) + self.negative@[v as int] >= 1
    }

    /// The database begins with the given clauses, and every clause follows
    /// from them.
    pub closed spec fn learned_ok(&self) -> bool {
        &&& self.given@.len() <= self.clauses@.len()
        &&& forall|i: int| 0 <= i < self.given@.len() ==> #[trigger] self.given@[i] == self.clauses@[i]@
        &&& forall|m: Map<usize, bool>|
            total(m) && #[trigger] models(m, self.given@) ==> models(m, formula(self.clauses@))
    }

    /// The decision stack begins with 0, and above it holds for each level
    /// the variable that was decided to open it, which is still assigned so.
    pub closed spec fn nodes_ok(&self) -> bool {
        &&& self.decision_nodes@[0] == 0
        &&& forall|d: int|
            1 <= d <= self.level() ==> (#[trigger] self.decision_nodes@[d]) < self.n() && {
                let a = self.records()[self.decision_nodes@[d] as int];
                a is Some && a->0.clause is None && a->0.decision_level == d
            }
    }

    /// What holds of an engine between any two of its steps.
    pub closed spec fn inv(&self) -> bool {
        &&& self.shape_ok()
        &&& self.trail_ok()
        &&& self.levels_ok()
        &&& self.reasons_ok()
        &&& self.nodes_ok()
        &&& self.learned_ok()
        &&& self.counts_ok()
        &&& self.watcher.watches(formula(self.clauses@))
    }

    /// The antecedent law, for the `k`-th variable of the trail: where it
    /// has an antecedent, that is a clause of the database which holds the
    /// variable's literal, and each other literal of which is false by a
    /// variable that stands earlier in the trail; where it has none, it is
    /// the decision that opened its level, which is no lower than 1.
    pub open spec fn justified(&self, k: int) -> bool {
        let here = Literal { value: self.entry(k).value, id: self.trail()[k] };
        match self.entry(k).clause {
            Some(c) => {
                &&& c < self.db().len()
                &&& self.db()[c as int]@.contains(here)
                &&& forall|j: int|
                    0 <= j < self.db()[c as int]@.len() && #[trigger] self.db()[c as int]@[j] != here
                        ==> exists|e: int|
                        0 <= e < k && #[trigger] self.trail()[e] == self.db()[c as int]@[j].id
                            && self.entry(e).value != self.db()[c as int]@[j].value
            },
            None => {
                &&& 1 <= self.entry(k).decision_level <= self.level()
                &&& self.node(self.entry(k).decision_level as int) == self.trail()[k]
            },
        }
    }

    /// Every variable of the trail has its antecedent, or is a decision.
    pub proof fn lemma_justified(&self, k: int)
        requires
            self.inv(),
            0 <= k < self.trail().len(),
        ensures
            self.justified(k),
            self.record(self.trail()[k] as int) == Some(self.entry(k)),
            self.trail()[k] < self.n(),
            self.entry(k).decision_level <= self.level(),
    {
        let a = self.entry(k);
        assert(self.trail@[k] < self.n());
        match a.clause {
            Some(c) => {
                assert(self.forced_by(k, c as int));
                let here = Literal { value: a.value, id: self.trail@[k] };
                let cl = self.clauses@[c as int]@;
                assert forall|j: int| 0 <= j < cl.len() && #[trigger] cl[j] != here implies exists|e: int|
                    0 <= e < k && #[trigger] self.trail()[e] == cl[j].id && self.entry(e).value
                        != cl[j].value by {
                    assert(self.earlier_false(k, cl[j]));
                }
            },
            None => {},
        }
    }

    /// Every assigned variable stands on the trail.
    pub proof fn lemma_assigned_on_trail(&self, v: usize)
        requires
            self.inv(),
            v < self.n(),
            self.record(v as int) is Some,
        ensures
            self.trail().contains(v),
            self.valuation().contains_key(v),
    {
    }

    /// Every clause of the database has a literal, holds no literal twice,
    /// and speaks of the engine's variables only.
    pub proof fn lemma_clauses_ok(&self, i: int)
        requires
            self.inv(),
            0 <= i < self.db().len(),
        ensures
            clause_ok(self.db()[i]@, self.n()),
    {
    }

    /// The database begins with the given clauses, and every valuation of
    /// all variables that satisfies the given clauses satisfies the whole
    /// database, learned clauses included.
    pub proof fn lemma_learned_follow(&self, m: Map<usize, bool>)
        requires
            self.inv(),
            total(m),
            models(m, self.given()),
        ensures
            models(m, formula(self.db())),
            self.given().len() <= self.db().len(),
            forall|i: int| 0 <= i < self.given().len() ==> #[trigger] self.given()[i] == self.db()[i]@,
    {
    }

    /// The decision stack: its entry for level 0 is 0, and its entry for each
    /// level from 1 to the current one is a variable that is assigned as the
    /// decision of that level.
    pub proof fn lemma_decision_stack(&self, d: int)
        requires
            self.inv(),
            0 <= d <= self.level(),
        ensures
            d == 0 ==> self.node(d) == 0,
            d >= 1 ==> self.node(d) < self.n() && self.record(self.node(d) as int) is Some && self.record(
                self.node(d) as int,
            )->0.clause is None && self.record(self.node(d) as int)->0.decision_level == d
                && self.trail().contains(self.node(d)),
    {
        if d >= 1 {
            let v = self.decision_nodes@[d];
            assert(v < self.n());
            assert(self.records()[v as int] is Some);
        }
    }
}

impl CDCLSolver {
    /// The watch map is that of the clauses, learned ones included.
    pub proof fn lemma_watcher(&self)
        requires
            self.inv(),
        ensures
            self.watcher().watches(formula(self.db())),
    {
    }

    /// The count of a literal is the number of clauses, learned ones
    /// included, in which it occurs.
    pub proof fn lemma_frequency(&self, l: Literal)
        ensures
            self.frequency(l) == occurrences(formula(self.db()), l),
    {
    }

    /// The snapshot has the assignment and the level of the engine.
    pub proof fn lemma_snapshot(&self)
        ensures
            self.snapshot().valuation() == self.valuation(),
            self.snapshot().level() == self.level(),
            self.snapshot().db == formula(self.db()),
            self.snapshot().trail == self.trail(),
    {
        assert(self.snapshot().valuation() =~= self.valuation());
    }
}

/// A sequence without repetition whose elements are all below `n` has at
/// most `n` elements.
pub proof fn lemma_pigeonhole(s: Seq<usize>, n: nat)
    requires
        s.no_duplicates(),
        forall|k: int| 0 <= k < s.len() ==> (#[trigger] s[k]) < n,
    ensures
        s.len() <= n,
    decreases n,
{
    if n == 0 {
        if s.len() > 0 {
            assert(s[0] < n);
        }
    } else if exists|i: int| 0 <= i < s.len() && s[i] == n - 1 {
        let i = choose|i: int| 0 <= i < s.len() && s[i] == n - 1;
        let t = s.remove(i);
        assert forall|k: int| 0 <= k < t.len() implies (#[trigger] t[k]) < n - 1 by {
            if k < i {
                assert(t[k] == s[k]);
            } else {
                assert(t[k] == s[k + 1]);
            }
        }
        assert(t.no_duplicates()) by {
            assert forall|a: int, b: int| 0 <= a < t.len() && 0 <= b < t.len() && a != b implies t[a]
                != t[b] by {
                let a2 = if a < i { a } else { a + 1 };
                let b2 = if b < i { b } else { b + 1 };
                assert(t[a] == s[a2] && t[b] == s[b2]);
            }
        }
        lemma_pigeonhole(t, (n - 1) as nat);
    } else {
        assert forall|k: int| 0 <= k < s.len() implies (#[trigger] s[k]) < n - 1 by {
            assert(s[k] < n);
        }
        lemma_pigeonhole(s, (n - 1) as nat);
    }
}

/// How a clause stands under a partial assignment.
#[derive(Clone, Copy, Debug)]
enum Status {
    /// Every literal is false.
    Conflict,
    /// One literal is unassigned and every other literal is false.
    Unit(Literal),
    /// Anything else: a literal is true, or two are unassigned.
    Open,
}

impl CDCLSolver {
    /// How clause `index` stands under the current assignment.
    fn status(&self, index: usize) -> (s: Status)
        requires
            self.inv(),
            index < self.clauses@.len(),
        ensures
            s is Conflict <==> clause_false(self.valuation(), self.clauses@[index as int]@),
            s matches Status::Unit(l) ==> unit_in(self.valuation(), self.clauses@[index as int]@, l),
            s is Open ==> forall|l: Literal|
                !#[trigger] unit_in(self.valuation(), self.clauses@[index as int]@, l),
    {
        let clause = &self.clauses[index];
        let ghost c = clause@;
        let ghost val = self.valuation();
        let mut open: usize = 0;
        let mut first = Literal { value: true, id: 0 };
        let ghost mut first_at: int = 0;
        let mut satisfied = false;
        let mut j: usize = 0;
        assert(clause_ok(self.clauses@[index as int]@, self.n()));
        while j < clause.literals.len()
            invariant
                j <= c.len(),
                c == clause.literals@,
                c == self.clauses@[index as int]@,
                val == self.valuation(),
                self.records().len() == self.n(),
                clause_ok(c, self.n()),
                open <= j,
                satisfied <==> exists|t: int| 0 <= t < j && lit_true(val, #[trigger] c[t]),
                open == 0 ==> forall|t: int| 0 <= t < j ==> lit_false(val, #[trigger] c[t]) || lit_true(val, c[t]),
                open >= 1 ==> 0 <= first_at < j && c[first_at] == first && !val.contains_key(first.id),
                open == 1 ==> forall|t: int| 0 <= t < j && t != first_at ==> lit_false(val, #[trigger] c[t]) || lit_true(val, c[t]),
                open >= 2 ==> exists|t: int| 0 <= t < j && t != first_at && !val.contains_key((#[trigger] c[t]).id),
            decreases c.len() - j,
        {
            let l = clause.literals[j];
            assert(c[j as int].id < self.n());
            match self.record_at(l.id) {
                Some(a) => {
                    assert(val.contains_key(l.id) && val[l.id] == a.value);
                    if a.value == l.value {
                        satisfied = true;
                    }
                },
                None => {
                    assert(!val.contains_key(l.id));
                    if open == 0 {
                        first = l;
                        proof {
                            first_at = j as int;
                        }
                    }
                    open = open + 1;
                },
            }
            j += 1;
        }
        if satisfied {
            proof {
                let t = choose|t: int| 0 <= t < c.len() && lit_true(val, #[trigger] c[t]);
                assert(!lit_false(val, c[t]));
                assert forall|l: Literal| !unit_in(self.valuation(), c, l) by {
                    if unit_in(self.valuation(), c, l) {
                        assert(c[t] != l);
                    }
                }
            }
            Status::Open
        } else if open == 0 {
            Status::Conflict
        } else if open == 1 {
            proof {
                assert(!lit_false(val, c[first_at]));
                assert forall|t: int| 0 <= t < c.len() && #[trigger] c[t] != first implies lit_false(
                    val,
                    c[t],
                ) by {
                    assert(t != first_at);
                }
            }
            Status::Unit(first)
        } else {
            proof {
                assert(!lit_false(val, c[first_at]));
                let t = choose|t: int|
                    0 <= t < c.len() && t != first_at && !val.contains_key((#[trigger] c[t]).id);
                assert(!lit_false(val, c[t]));
                assert(c[t] != c[first_at]);
                assert forall|l: Literal| !unit_in(self.valuation(), c, l) by {
                    if unit_in(self.valuation(), c, l) {
                        if l == c[t] {
                            assert(c[first_at] != l);
                        } else {
                            assert(c[t] != l);
                        }
                    }
                }
            }
            Status::Open
        }
    }
}


impl CDCLSolver {
    /// `next` is `self` after one more variable was assigned.
    pub closed spec fn then_assigned(&self, next: &CDCLSolver, v: usize, a: Assignment) -> bool {
        &&& next.ids@ == self.ids@
        &&& next.clauses@ == self.clauses@
        &&& next.given@ == self.given@
        &&& next.res == self.res
        &&& next.positive@ == self.positive@
        &&& next.negative@ == self.negative@
        &&& next.watcher == self.watcher
        &&& next.forced@ == self.forced@
        &&& next.source@ == self.source@
        &&& next.trail@ == self.trail@.push(v)
        &&& next.records() == self.records().update(v as int, Some(a))
    }

    /// Appending an assignment that is in order keeps the invariant.
    #[verifier::rlimit(40)]
    proof fn lemma_then_assigned(&self, next: &CDCLSolver, v: usize, a: Assignment)
        requires
            self.inv(),
            self.then_assigned(next, v, a),
            v < self.n(),
            self.records()[v as int] is None,
            next.decision_nodes@.len() >= 1,
            a.decision_level == next.level(),
            match a.clause {
                Some(c) => next.decision_nodes@ == self.decision_nodes@ && c < self.clauses@.len()
                    && unit_in(self.valuation(), self.clauses@[c as int]@, Literal { value: a.value, id: v }),
                None => next.decision_nodes@ == self.decision_nodes@.push(v),
            },
        ensures
            next.inv(),
            next.valuation() == self.valuation().insert(v, a.value),
            next.progress() == self.progress() + next.weight(a.decision_level as int),
            next.progress() > self.progress(),
    {
        let old_len = self.trail@.len() as int;
        assert(next.valuation() =~= self.valuation().insert(v, a.value));
        assert(!self.trail@.contains(v)) by {
            if self.trail@.contains(v) {
                let k = choose|k: int| 0 <= k < self.trail@.len() && self.trail@[k] == v;
                assert(self.records()[self.trail@[k] as int] is Some);
            }
        }
        assert forall|k: int| 0 <= k < old_len implies next.trail@[k] == #[trigger] self.trail@[k]
            && self.trail@[k] != v && next.entry(k) == self.entry(k) by {
            assert(self.trail@.contains(self.trail@[k]));
        }
        assert(next.trail@[old_len] == v && next.entry(old_len) == a);
        // the trail
        assert(next.trail@.no_duplicates()) by {
            assert forall|x: int, y: int|
                0 <= x < next.trail@.len() && 0 <= y < next.trail@.len() && x != y implies next.trail@[x]
                != next.trail@[y] by {
                if x < old_len {
                    assert(next.trail@[x] == self.trail@[x]);
                }
                if y < old_len {
                    assert(next.trail@[y] == self.trail@[y]);
                }
            }
        }
        assert forall|k: int| 0 <= k < next.trail@.len() implies (#[trigger] next.trail@[k])
            < next.n() && next.records()[next.trail@[k] as int] is Some by {
            if k < old_len {
                assert(next.trail@[k] == self.trail@[k]);
            }
        }
        assert forall|w: usize| w < next.n() && (#[trigger] next.records()[w as int]) is Some implies next.trail@.contains(
            w,
        ) by {
            if w == v {
                assert(next.trail@[old_len] == v);
            } else {
                assert(self.records()[w as int] is Some);
                let k = choose|k: int| 0 <= k < self.trail@.len() && self.trail@[k] == w;
                assert(next.trail@[k] == w);
            }
        }
        lemma_pigeonhole(next.trail@, next.n());
        assert(next.trail_ok());
        assert(next.shape_ok());
        // the levels
        assert forall|k: int| 0 <= k < next.trail@.len() implies (#[trigger] next.entry(
            k,
        )).decision_level <= next.level() && next.entry(k).decision_level <= k + 1 by {
            if k < old_len {
                assert(next.entry(k) == self.entry(k));
            }
        }
        assert forall|k1: int, k2: int| 0 <= k1 <= k2 < next.trail@.len() implies (#[trigger] next.entry(
            k1,
        )).decision_level <= (#[trigger] next.entry(k2)).decision_level by {
            if k2 < old_len {
                assert(next.entry(k1) == self.entry(k1));
                assert(next.entry(k2) == self.entry(k2));
            } else if k1 < old_len {
                assert(next.entry(k1) == self.entry(k1));
            }
        }
        assert(next.levels_ok());
        // the reasons
        assert forall|k: int| 0 <= k < next.trail@.len() implies match (#[trigger] next.entry(
            k,
        )).clause {
            Some(c) => next.forced_by(k, c as int),
            None => next.entry(k).decision_level >= 1 && next.decision_nodes@[next.entry(
                k,
            ).decision_level as int] == next.trail@[k],
        } by {
            if k < old_len {
                assert(next.entry(k) == self.entry(k));
                match self.entry(k).clause {
                    Some(c) => {
                        assert(self.forced_by(k, c as int));
                        let cl = self.clauses@[c as int]@;
                        assert forall|j: int|
                            0 <= j < cl.len() && #[trigger] cl[j] != (Literal {
                                value: next.entry(k).value,
                                id: next.trail@[k],
                            }) implies next.earlier_false(k, cl[j]) by {
                            assert(self.earlier_false(k, cl[j]));
                            let e = choose|e: int|
                                0 <= e < k && #[trigger] self.trail@[e] == cl[j].id && self.entry(
                                    e,
                                ).value != cl[j].value;
                            assert(next.trail@[e] == cl[j].id && next.entry(e) == self.entry(e));
                        }
                    },
                    None => {},
                }
            } else {
                match a.clause {
                    Some(c) => {
                        let cl = self.clauses@[c as int]@;
                        let l = Literal { value: a.value, id: v };
                        assert forall|j: int|
                            0 <= j < cl.len() && #[trigger] cl[j] != (Literal {
                                value: next.entry(k).value,
                                id: next.trail@[k],
                            }) implies next.earlier_false(k, cl[j]) by {
                            assert(cl[j] != l);
                            assert(lit_false(self.valuation(), cl[j]));
                            assert(self.records()[cl[j].id as int] is Some);
                            let e = choose|e: int|
                                0 <= e < self.trail@.len() && self.trail@[e] == cl[j].id;
                            assert(next.trail@[e] == cl[j].id && next.entry(e) == self.entry(e));
                        }
                    },
                    None => {},
                }
            }
        }
        assert(next.reasons_ok());
        assert(next.learned_ok());
        assert(next.counts_ok());
        next.lemma_mass_same(self, old_len);
        next.lemma_weight(0, a.decision_level as int);
    }

    /// Records that clause `reason` forces its literal `l`.
    fn imply(&mut self, l: Literal, reason: usize)
        requires
            old(self).inv(),
            l.id < old(self).n(),
            reason < old(self).clauses@.len(),
            unit_in(old(self).valuation(), old(self).clauses@[reason as int]@, l),
        ensures
            final(self).inv(),
            final(self).decision_nodes@ == old(self).decision_nodes@,
            old(self).then_assigned(
                final(self),
                l.id,
                Assignment {
                    value: l.value,
                    clause: Some(reason),
                    decision_level: old(self).level() as usize,
                },
            ),
            final(self).valuation() == old(self).valuation().insert(l.id, l.value),
            final(self).progress() == old(self).progress() + final(self).weight(old(self).level()),
            final(self).snapshot() == old(self).snapshot().implied(l, reason),
    {
        let level: usize = self.decision_nodes.len() - 1;
        let a = Assignment { value: l.value, clause: Some(reason), decision_level: level };
        self.set_record(l.id, Some(a));
        self.trail.push(l.id);
        proof {
            old(self).lemma_then_assigned(self, l.id, a);
        }
    }

    /// Opens a new decision level with the literal `l`.
    fn open_level(&mut self, l: Literal)
        requires
            old(self).inv(),
            l.id < old(self).n(),
            !old(self).valuation().contains_key(l.id),
        ensures
            final(self).inv(),
            final(self).level() == old(self).level() + 1,
            final(self).decision_nodes@ == old(self).decision_nodes@.push(l.id),
            old(self).then_assigned(
                final(self),
                l.id,
                Assignment {
                    value: l.value,
                    clause: None,
                    decision_level: (old(self).level() + 1) as usize,
                },
            ),
            final(self).valuation() == old(self).valuation().insert(l.id, l.value),
            final(self).progress() > old(self).progress(),
            final(self).snapshot() == old(self).snapshot().decided(l),
    {
        proof {
            assert(old(self).level() <= old(self).trail@.len() <= old(self).n());
        }
        let level: usize = self.decision_nodes.len();
        let a = Assignment { value: l.value, clause: None, decision_level: level };
        self.decision_nodes.push(l.id);
        self.set_record(l.id, Some(a));
        self.trail.push(l.id);
        proof {
            old(self).lemma_then_assigned(self, l.id, a);
        }
    }
}


impl CDCLSolver {
    /// Decides the literal `l`: the level rises by one, and the variable of
    /// `l` gets the value of `l` at the new level, without an antecedent.
    pub fn decide(&mut self, l: Literal)
        requires
            old(self).inv(),
            l.id < old(self).n(),
            !old(self).valuation().contains_key(l.id),
        ensures
            final(self).inv(),
            final(self).level() == old(self).level() + 1,
            final(self).db() == old(self).db(),
            final(self).given() == old(self).given(),
            final(self).names() == old(self).names(),
            final(self).verdict() == old(self).verdict(),
            final(self).n() == old(self).n(),
            final(self).source() == old(self).source(),
            final(self).units() == old(self).units(),
            final(self).watcher() == old(self).watcher(),
            forall|k: Literal| final(self).frequency(k) == old(self).frequency(k),
            final(self).node(old(self).level() + 1) == l.id,
            forall|d: int| 0 <= d <= old(self).level() ==> final(self).node(d) == old(self).node(d),
            final(self).trail() == old(self).trail().push(l.id),
            final(self).valuation() == old(self).valuation().insert(l.id, l.value),
            final(self).record(l.id as int) == Some(
                Assignment {
                    value: l.value,
                    clause: None,
                    decision_level: (old(self).level() + 1) as usize,
                },
            ),
            forall|v: int|
                0 <= v < old(self).n() && v != l.id ==> #[trigger] final(self).record(v) == old(self).record(v),
            final(self).progress() > old(self).progress(),
            final(self).snapshot() == old(self).snapshot().decided(l),
    {
        self.open_level(l);
    }
}


impl CDCLSolver {
    /// `self` is `before` after more variables were assigned: nothing else
    /// has changed, and what was assigned is still assigned as it was.
    pub closed spec fn grew_from(&self, before: &CDCLSolver) -> bool {
        &&& self.ids@ == before.ids@
        &&& self.clauses@ == before.clauses@
        &&& self.given@ == before.given@
        &&& self.res == before.res
        &&& self.decision_nodes@ == before.decision_nodes@
        &&& self.positive@ == before.positive@
        &&& self.negative@ == before.negative@
        &&& self.watcher == before.watcher
        &&& self.forced@ == before.forced@
        &&& self.source@ == before.source@
        &&& self.records().len() == before.records().len()
        &&& before.trail@.is_prefix_of(self.trail@)
        &&& forall|v: int|
            0 <= v < before.records().len() && (#[trigger] before.records()[v]) is Some
                ==> self.records()[v] == before.records()[v]
    }

    /// What was assigned stays assigned, with the same value.
    pub proof fn lemma_grew_valuation(&self, before: &CDCLSolver)
        requires
            self.grew_from(before),
        ensures
            before.valuation().submap_of(self.valuation()),
    {
        assert forall|v: usize| before.valuation().dom().contains(v) implies #[trigger] self.valuation().dom().contains(
            v,
        ) && before.valuation()[v] == self.valuation()[v] by {
            assert(before.records()[v as int] is Some);
        }
    }

    /// Boolean constraint propagation. Scans the clauses in order: a clause
    /// whose literals are all false is a conflict, and the first such clause
    /// is returned. Otherwise every clause that forces a literal has it
    /// assigned at the current level, with that clause as its antecedent, and
    /// the scan starts again, until a scan finds nothing to assign.
    #[verifier::rlimit(40)]
    pub fn propagation(&mut self, current_decision_level: usize) -> (r: Option<usize>)
        requires
            old(self).inv(),
            current_decision_level == old(self).level(),
        ensures
            r == old(self).snapshot().propagated().0,
            final(self).snapshot() == old(self).snapshot().propagated().1,
            final(self).inv(),
            final(self).grew_from(old(self)),
            final(self).level() == old(self).level(),
            final(self).db() == old(self).db(),
            final(self).n() == old(self).n(),
            final(self).names() == old(self).names(),
            final(self).given() == old(self).given(),
            final(self).source() == old(self).source(),
            final(self).units() == old(self).units(),
            final(self).verdict() == old(self).verdict(),
            final(self).watcher() == old(self).watcher(),
            forall|l: Literal| final(self).frequency(l) == old(self).frequency(l),
            forall|d: int| 0 <= d <= old(self).level() ==> final(self).node(d) == old(self).node(d),
            forall|v: int|
                0 <= v < old(self).n() && (#[trigger] old(self).record(v)) is Some ==> final(self).record(v)
                    == old(self).record(v),
            old(self).trail().is_prefix_of(final(self).trail()),
            old(self).valuation().submap_of(final(self).valuation()),
            forall|k: int|
                old(self).trail().len() <= k < final(self).trail().len() ==> (#[trigger] final(self).entry(
                    k,
                )).clause is Some && final(self).entry(k).decision_level == current_decision_level,
            match r {
                Some(c) => {
                    &&& c < final(self).db().len()
                    &&& clause_false(final(self).valuation(), final(self).db()[c as int]@)
                    &&& forall|i: int|
                        0 <= i < c ==> !clause_false(
                            final(self).valuation(),
                            #[trigger] final(self).db()[i]@,
                        )
                },
                None => {
                    &&& forall|i: int|
                        0 <= i < final(self).db().len() ==> !clause_false(
                            final(self).valuation(),
                            #[trigger] final(self).db()[i]@,
                        )
                    &&& forall|i: int, l: Literal|
                        0 <= i < final(self).db().len() ==> !#[trigger] unit_in(
                            final(self).valuation(),
                            final(self).db()[i]@,
                            l,
                        )
                },
            },
    {
        let c_len = self.clauses.len();
        proof {
            assert(old(self).trail@.is_prefix_of(old(self).trail@));
        }
        loop
            invariant
                self.inv(),
                self.grew_from(old(self)),
                c_len == self.clauses@.len(),
                current_decision_level == self.level(),
                forall|k: int|
                    old(self).trail@.len() <= k < self.trail@.len() ==> (#[trigger] self.entry(k)).clause is Some
                        && self.entry(k).decision_level == current_decision_level,
                self.snapshot().propagated() == old(self).snapshot().propagated(),
            decreases self.n() - self.trail@.len(),
        {
            proof {
                self.lemma_grew_valuation(old(self));
                self.lemma_snapshot();
            }
            let ghost start = *self;
            let ghost snap = self.snapshot();
            let ghost val = self.valuation();
            let ghost db = formula(self.clauses@);
            let mut units: Vec<(Literal, usize)> = Vec::new();
            let mut index: usize = 0;
            while index < c_len
                invariant
                    self.inv(),
                    self.grew_from(old(self)),
                    *self == start,
                    forall|k: int|
                        old(self).trail@.len() <= k < self.trail@.len() ==> (#[trigger] self.entry(
                            k,
                        )).clause is Some && self.entry(k).decision_level == current_decision_level,
                    index <= c_len,
                    c_len == self.clauses@.len(),
                    snap == self.snapshot(),
                    val == self.valuation(),
                    val == snap.valuation(),
                    db == formula(self.clauses@),
                    snap.propagated() == old(self).snapshot().propagated(),
                    first_conflict(val, db, index as int) is None,
                    units@ == units_upto(val, db, index as int),
                    forall|i: int|
                        0 <= i < index ==> !clause_false(
                            self.valuation(),
                            #[trigger] self.clauses@[i]@,
                        ),
                    forall|t: int|
                        0 <= t < units@.len() ==> (#[trigger] units@[t]).1 < c_len && unit_in(
                            self.valuation(),
                            self.clauses@[units@[t].1 as int]@,
                            units@[t].0,
                        ),
                    units@.len() == 0 ==> forall|i: int, l: Literal|
                        0 <= i < index ==> !#[trigger] unit_in(
                            self.valuation(),
                            self.clauses@[i]@,
                            l,
                        ),
                decreases c_len - index,
            {
                match self.status(index) {
                    Status::Conflict => {
                        proof {
                            assert(db[index as int] == self.clauses@[index as int]@);
                            assert(first_conflict(val, db, index as int + 1) == Some(index));
                            lemma_first_conflict(val, db, index as int + 1, c_len as int);
                        }
                        return Some(index);
                    },
                    Status::Unit(l) => {
                        proof {
                            assert(db[index as int] == self.clauses@[index as int]@);
                            lemma_forced_in(val, db[index as int], l);
                        }
                        units.push((l, index));
                    },
                    Status::Open => {
                        proof {
                            assert(db[index as int] == self.clauses@[index as int]@);
                            assert(forced_in(val, db[index as int]) is None);
                        }
                    },
                }
                index += 1;
            }
            if units.len() == 0 {
                proof {
                    assert(snap.swept() == snap);
                }
                return None;
            }
            let mut u: usize = 0;
            while u < units.len()
                invariant
                    self.inv(),
                    self.grew_from(old(self)),
                    self.grew_from(&start),
                    start.inv(),
                    current_decision_level == self.level(),
                    forall|k: int|
                        old(self).trail@.len() <= k < self.trail@.len() ==> (#[trigger] self.entry(
                            k,
                        )).clause is Some && self.entry(k).decision_level == current_decision_level,
                    u <= units@.len(),
                    units@.len() > 0,
                    c_len == self.clauses@.len(),
                    u == 0 ==> self.valuation() == start.valuation(),
                    u > 0 ==> self.trail@.len() > start.trail@.len(),
                    snap == start.snapshot(),
                    self.snapshot() == snap.applied(units@, u as int),
                    forall|t: int|
                        0 <= t < units@.len() ==> (#[trigger] units@[t]).1 < c_len && unit_in(
                            start.valuation(),
                            start.clauses@[units@[t].1 as int]@,
                            units@[t].0,
                        ),
                decreases units@.len() - u,
            {
                let (l, i) = units[u];
                let ghost c = self.clauses@[i as int]@;
                proof {
                    assert(unit_in(start.valuation(), c, l));
                    assert(clause_ok(c, self.n()));
                    let j = choose|j: int| 0 <= j < c.len() && c[j] == l;
                    assert(c[j].id < self.n());
                }
                if self.record_at(l.id).is_none() {
                    let ghost mid = *self;
                    proof {
                        assert(!self.valuation().contains_key(l.id));
                        assert(unit_in(self.valuation(), c, l)) by {
                            assert forall|j: int| 0 <= j < c.len() && #[trigger] c[j] != l implies lit_false(
                                self.valuation(),
                                c[j],
                            ) by {
                                assert(lit_false(start.valuation(), c[j]));
                                self.lemma_grew_valuation(&start);
                                assert(start.valuation().dom().contains(c[j].id));
                                assert(self.valuation().dom().contains(c[j].id));
                            }
                        }
                    }
                    self.imply(l, i);
                    proof {
                        assert(mid.trail@.is_prefix_of(self.trail@));
                        assert(old(self).trail@.is_prefix_of(self.trail@));
                        assert(start.trail@.is_prefix_of(self.trail@));
                        assert forall|k: int|
                            old(self).trail@.len() <= k < self.trail@.len() implies (#[trigger] self.entry(
                            k,
                        )).clause is Some && self.entry(k).decision_level == current_decision_level by {
                            if k < mid.trail@.len() {
                                assert(self.trail@[k] == mid.trail@[k]);
                                assert(mid.trail@.contains(mid.trail@[k]));
                                assert(self.entry(k) == mid.entry(k));
                            }
                        }
                    }
                } else {
                    proof {
                        assert(self.valuation().contains_key(l.id));
                    }
                }
                u += 1;
            }
            proof {
                assert(self.snapshot() == snap.swept());
                assert(self.trail@.len() <= self.n());
                assert(snap.propagated() == self.snapshot().propagated());
            }
        }
    }
}


impl CDCLSolver {
    /// The level at which variable `v` was assigned.
    pub closed spec fn level_of(&self, v: usize) -> int {
        (self.records()[v as int]->0).decision_level as int
    }

    /// `v` is assigned by decision: it has no antecedent.
    pub closed spec fn is_decision(&self, v: usize) -> bool {
        &&& v < self.n()
        &&& self.records()[v as int] matches Some(a)
        &&& a.clause is None
    }

    /// The total valuation `m` gives each of `roots` the value it has now.
    pub closed spec fn agrees_on(&self, m: Map<usize, bool>, roots: Seq<usize>) -> bool {
        forall|t: int| 0 <= t < roots.len() ==> m[#[trigger] roots[t]] == self.valuation()[roots[t]]
    }

    /// `m` is a total model of the given database that has the current value
    /// of every root, and of every marked variable among the first `k` of
    /// the trail.
    spec fn blames(&self, m: Map<usize, bool>, marked: Seq<bool>, k: int, roots: Seq<usize>) -> bool {
        &&& total(m)
        &&& models(m, self.given@)
        &&& forall|j: int|
            0 <= j < k && marked[(#[trigger] self.trail@[j]) as int] ==> m[self.trail@[j]]
                == self.entry(j).value
        &&& self.agrees_on(m, roots)
    }

    /// What conflict analysis has done with the variables from place `k`
    /// of the trail on: a marked decision is among the roots, and the
    /// variables of a marked variable's antecedent are marked.
    spec fn walked(&self, marked: Seq<bool>, k: int, roots: Seq<usize>) -> bool {
        forall|j: int|
            k <= j < self.trail@.len() && marked[(#[trigger] self.trail@[j]) as int] ==> match self.entry(
                j,
            ).clause {
                None => roots.contains(self.trail@[j]),
                Some(r) => forall|i: int|
                    0 <= i < self.clauses@[r as int]@.len() && (#[trigger] self.clauses@[r as int]@[i]).id
                        != self.trail@[j] ==> marked[self.clauses@[r as int]@[i].id as int],
            }
    }

    /// Every marked variable is assigned and reached from `clause`, and
    /// every variable of `clause` is marked.
    spec fn marks_ok(&self, clause: int, marked: Seq<bool>) -> bool {
        &&& marked.len() == self.n()
        &&& forall|t: int|
            0 <= t < self.clauses@[clause]@.len() ==> marked[(#[trigger] self.clauses@[clause]@[t]).id as int]
        &&& forall|w: int|
            0 <= w < self.n() && #[trigger] marked[w] ==> self.records()[w] is Some
                && self.snapshot().reached(clause, w as usize)
    }

    /// The marked decisions among the variables from place `k` of the
    /// trail on, the latest first.
    spec fn roots_marked(&self, marked: Seq<bool>, k: int) -> Seq<usize>
        decreases self.trail@.len() - k,
    {
        if k < 0 || k >= self.trail@.len() {
            Seq::empty()
        } else if marked[self.trail@[k] as int] && self.entry(k).clause is None {
            self.roots_marked(marked, k + 1).push(self.trail@[k])
        } else {
            self.roots_marked(marked, k + 1)
        }
    }

    /// Marks that agree from place `k` on give the same roots from there.
    proof fn lemma_roots_marked(&self, one: Seq<bool>, other: Seq<bool>, k: int)
        requires
            forall|j: int|
                k <= j < self.trail@.len() ==> one[(#[trigger] self.trail@[j]) as int] == other[self.trail@[j] as int],
        ensures
            self.roots_marked(one, k) == self.roots_marked(other, k),
        decreases self.trail@.len() - k,
    {
        if 0 <= k < self.trail@.len() {
            self.lemma_roots_marked(one, other, k + 1);
            assert(one[self.trail@[k] as int] == other[self.trail@[k] as int]);
        } else if k < 0 {
        }
    }

    /// Where the marks are those of what is reached, the marked decisions
    /// are the roots of the analysis.
    proof fn lemma_roots_analysis(&self, clause: int, marked: Seq<bool>, k: int)
        requires
            self.inv(),
            0 <= k,
            forall|j: int|
                0 <= j < self.trail@.len() ==> (marked[(#[trigger] self.trail@[j]) as int]
                    <==> self.snapshot().reached(clause, self.trail@[j])),
        ensures
            self.roots_marked(marked, k) == self.snapshot().roots_above(clause, k),
        decreases self.trail@.len() - k,
    {
        if k < self.trail@.len() {
            self.lemma_roots_analysis(clause, marked, k + 1);
            assert(self.trail@[k] < self.n() && self.records()[self.trail@[k] as int] is Some);
        }
    }

    /// Whatever a path reaches is marked, once every variable is done.
    proof fn lemma_walk_marked(&self, clause: int, path: Seq<usize>, marked: Seq<bool>, roots: Seq<usize>)
        requires
            self.inv(),
            0 <= clause < self.clauses@.len(),
            self.marks_ok(clause, marked),
            self.snapshot().walk(clause, path),
            self.walked(marked, 0, roots),
        ensures
            marked[path.last() as int],
        decreases path.len(),
    {
        let snap = self.snapshot();
        assert(snap.db[clause] == self.clauses@[clause]@);
        if path.len() == 1 {
            let i = choose|i: int| 0 <= i < snap.db[clause].len() && (#[trigger] snap.db[clause][i]).id == path[0];
            assert(self.clauses@[clause]@[i].id == path[0]);
        } else {
            let front = path.drop_last();
            assert(snap.walk(clause, front)) by {
                assert(front[0] == path[0]);
                assert forall|i: int| 0 <= i < front.len() - 1 implies snap.linked(
                    #[trigger] front[i],
                    front[i + 1],
                ) by {
                    assert(snap.linked(path[i], path[i + 1]));
                }
            }
            self.lemma_walk_marked(clause, front, marked, roots);
            let u = front.last();
            let w = path.last();
            assert(snap.linked(path[path.len() - 2], path[path.len() - 2 + 1]));
            assert(snap.linked(u, w));
            assert(self.records()[u as int] is Some);
            assert(self.trail@.contains(u));
            let j = choose|j: int| 0 <= j < self.trail@.len() && self.trail@[j] == u;
            assert(marked[self.trail@[j] as int]);
            let r = self.entry(j).clause->0;
            assert(self.forced_by(j, r as int)) by {
                assert(self.reasons_ok());
            }
            assert(snap.db[r as int] == self.clauses@[r as int]@);
            let i = choose|i: int| 0 <= i < snap.db[r as int].len() && (#[trigger] snap.db[r as int][i]).id == w;
            assert(self.clauses@[r as int]@[i].id == w);
        }
    }

    /// The marks of the variables of the conflict are in order, and no model
    /// of the given database has the current values of all of them.
    proof fn lemma_analysis_start(&self, clause: int, marked: Seq<bool>)
        requires
            self.inv(),
            0 <= clause < self.clauses@.len(),
            clause_false(self.valuation(), self.clauses@[clause]@),
            self.marks_ok(clause, marked),
        ensures
            forall|m: Map<usize, bool>| !#[trigger] self.blames(m, marked, self.trail@.len() as int, Seq::empty()),
            self.walked(marked, self.trail@.len() as int, Seq::empty()),
            self.roots_marked(marked, self.trail@.len() as int) == Seq::<usize>::empty(),
    {
        let c = self.clauses@[clause]@;
        let k = self.trail@.len() as int;
        assert forall|m: Map<usize, bool>| !#[trigger] self.blames(m, marked, k, Seq::empty()) by {
            if self.blames(m, marked, k, Seq::empty()) {
                assert(models(m, formula(self.clauses@)));
                assert(formula(self.clauses@)[clause] == c);
                assert(clause_true(m, c));
                let t = choose|t: int| 0 <= t < c.len() && lit_true(m, #[trigger] c[t]);
                assert(lit_false(self.valuation(), c[t]));
                assert(self.records()[c[t].id as int] is Some);
                assert(self.trail@.contains(c[t].id));
                let e = choose|e: int| 0 <= e < self.trail@.len() && self.trail@[e] == c[t].id;
                assert(marked[self.trail@[e] as int]);
            }
        }
    }

    /// The step of the analysis at an unmarked variable.
    proof fn lemma_analysis_skip(&self, marked: Seq<bool>, k: int, roots: Seq<usize>)
        requires
            self.inv(),
            0 <= k < self.trail@.len(),
            !marked[self.trail@[k] as int],
            forall|m: Map<usize, bool>| !#[trigger] self.blames(m, marked, k + 1, roots),
            self.walked(marked, k + 1, roots),
        ensures
            forall|m: Map<usize, bool>| !#[trigger] self.blames(m, marked, k, roots),
            self.walked(marked, k, roots),
            self.roots_marked(marked, k) == self.roots_marked(marked, k + 1),
    {
        assert forall|m: Map<usize, bool>| !#[trigger] self.blames(m, marked, k, roots) by {
            if self.blames(m, marked, k, roots) {
                assert(self.blames(m, marked, k + 1, roots));
            }
        }
    }

    /// The step of the analysis at a marked decision: it goes to the roots.
    proof fn lemma_analysis_root(&self, marked: Seq<bool>, k: int, roots: Seq<usize>)
        requires
            self.inv(),
            0 <= k < self.trail@.len(),
            marked[self.trail@[k] as int],
            self.entry(k).clause is None,
            forall|m: Map<usize, bool>| !#[trigger] self.blames(m, marked, k + 1, roots),
            self.walked(marked, k + 1, roots),
        ensures
            forall|m: Map<usize, bool>| !#[trigger] self.blames(m, marked, k, roots.push(self.trail@[k])),
            self.walked(marked, k, roots.push(self.trail@[k])),
            self.roots_marked(marked, k) == self.roots_marked(marked, k + 1).push(self.trail@[k]),
    {
        let v = self.trail@[k];
        let more = roots.push(v);
        assert(self.records()[self.trail@[k] as int] is Some);
        assert forall|m: Map<usize, bool>| !#[trigger] self.blames(m, marked, k, more) by {
            if self.blames(m, marked, k, more) {
                assert(more[roots.len() as int] == v);
                assert(m[v] == self.valuation()[v]);
                assert forall|t: int| 0 <= t < roots.len() implies m[#[trigger] roots[t]] == self.valuation()[roots[t]] by {
                    assert(more[t] == roots[t]);
                }
                assert(self.agrees_on(m, roots));
                assert(self.blames(m, marked, k + 1, roots));
            }
        }
        assert forall|j: int|
            k <= j < self.trail@.len() && marked[(#[trigger] self.trail@[j]) as int] implies match self.entry(
            j,
        ).clause {
            None => more.contains(self.trail@[j]),
            Some(r) => forall|i: int|
                0 <= i < self.clauses@[r as int]@.len() && (#[trigger] self.clauses@[r as int]@[i]).id
                    != self.trail@[j] ==> marked[self.clauses@[r as int]@[i].id as int],
        } by {
            if j == k {
                assert(more[roots.len() as int] == v);
            } else if self.entry(j).clause is None {
                assert(roots.contains(self.trail@[j]));
                let t = choose|t: int| 0 <= t < roots.len() && roots[t] == self.trail@[j];
                assert(more[t] == self.trail@[j]);
            }
        }
    }

    /// The step of the analysis at a marked variable with an antecedent,
    /// after the other variables of the antecedent were marked.
    #[verifier::rlimit(40)]
    proof fn lemma_analysis_reason(
        &self,
        before: Seq<bool>,
        marked: Seq<bool>,
        k: int,
        roots: Seq<usize>,
        reason: usize,
    )
        requires
            self.inv(),
            0 <= k < self.trail@.len(),
            before.len() == self.n(),
            marked.len() == self.n(),
            before[self.trail@[k] as int],
            self.entry(k).clause == Some(reason),
            forall|w: int| 0 <= w < self.n() && before[w] ==> #[trigger] marked[w],
            forall|j: int|
                k <= j < self.trail@.len() ==> marked[(#[trigger] self.trail@[j]) as int] == before[self.trail@[j] as int],
            forall|t: int|
                0 <= t < self.clauses@[reason as int]@.len() && (#[trigger] self.clauses@[reason as int]@[t]).id
                    != self.trail@[k] ==> marked[self.clauses@[reason as int]@[t].id as int],
            forall|m: Map<usize, bool>| !#[trigger] self.blames(m, before, k + 1, roots),
            self.walked(before, k + 1, roots),
        ensures
            forall|m: Map<usize, bool>| !#[trigger] self.blames(m, marked, k, roots),
            self.walked(marked, k, roots),
            self.roots_marked(marked, k) == self.roots_marked(before, k + 1),
    {
        let v = self.trail@[k];
        let a = self.entry(k);
        let r = self.clauses@[reason as int]@;
        let own = Literal { value: a.value, id: v };
        assert(self.forced_by(k, reason as int)) by {
            assert(self.reasons_ok());
        }
        assert(self.records()[self.trail@[k] as int] is Some);
        assert forall|m: Map<usize, bool>| !#[trigger] self.blames(m, marked, k, roots) by {
            if self.blames(m, marked, k, roots) {
                assert(models(m, formula(self.clauses@)));
                assert(formula(self.clauses@)[reason as int] == r);
                assert(clause_true(m, r));
                let t = choose|t: int| 0 <= t < r.len() && lit_true(m, #[trigger] r[t]);
                if r[t] != own {
                    assert(self.earlier_false(k, r[t]));
                    let e = choose|e: int|
                        0 <= e < k && #[trigger] self.trail@[e] == r[t].id && self.entry(e).value != r[t].value;
                    assert(self.trail@[e] != self.trail@[k]);
                    assert(marked[self.trail@[e] as int]);
                }
                assert(m[v] == a.value);
                assert forall|j: int|
                    0 <= j < k + 1 && before[(#[trigger] self.trail@[j]) as int] implies m[self.trail@[j]]
                    == self.entry(j).value by {
                    if j < k {
                        assert(marked[self.trail@[j] as int]);
                    }
                }
                assert(self.blames(m, before, k + 1, roots));
            }
        }
        assert forall|j: int|
            k <= j < self.trail@.len() && marked[(#[trigger] self.trail@[j]) as int] implies match self.entry(
            j,
        ).clause {
            None => roots.contains(self.trail@[j]),
            Some(r2) => forall|i: int|
                0 <= i < self.clauses@[r2 as int]@.len() && (#[trigger] self.clauses@[r2 as int]@[i]).id
                    != self.trail@[j] ==> marked[self.clauses@[r2 as int]@[i].id as int],
        } by {
            if j > k {
                assert(before[self.trail@[j] as int]);
                match self.entry(j).clause {
                    None => {},
                    Some(r2) => {
                        assert(self.forced_by(j, r2 as int)) by {
                            assert(self.reasons_ok());
                        }
                        assert(clause_ok(self.clauses@[r2 as int]@, self.n()));
                        assert forall|i: int|
                            0 <= i < self.clauses@[r2 as int]@.len() && (#[trigger] self.clauses@[r2 as int]@[i]).id
                                != self.trail@[j] implies marked[self.clauses@[r2 as int]@[i].id as int] by {
                            assert(before[self.clauses@[r2 as int]@[i].id as int]);
                        }
                    },
                }
            }
        }
        self.lemma_roots_marked(marked, before, k + 1);
    }

    /// A variable of the antecedent of a reached variable is reached, and it
    /// stands before that variable on the trail.
    proof fn lemma_analysis_mark(&self, clause: int, k: int, reason: usize, i: int)
        requires
            self.inv(),
            0 <= clause < self.clauses@.len(),
            0 <= k < self.trail@.len(),
            self.entry(k).clause == Some(reason),
            self.snapshot().reached(clause, self.trail@[k]),
            0 <= i < self.clauses@[reason as int]@.len(),
            self.clauses@[reason as int]@[i].id != self.trail@[k],
        ensures
            self.clauses@[reason as int]@[i].id < self.n(),
            self.records()[self.clauses@[reason as int]@[i].id as int] is Some,
            self.snapshot().reached(clause, self.clauses@[reason as int]@[i].id),
            forall|j: int| k <= j < self.trail@.len() ==> (#[trigger] self.trail@[j]) != self.clauses@[reason as int]@[i].id,
    {
        let snap = self.snapshot();
        let v = self.trail@[k];
        let x = self.clauses@[reason as int]@[i];
        assert(self.forced_by(k, reason as int)) by {
            assert(self.reasons_ok());
        }
        assert(clause_ok(self.clauses@[reason as int]@, self.n()));
        assert(self.records()[self.trail@[k] as int] is Some);
        assert(x != Literal { value: self.entry(k).value, id: v });
        assert(self.earlier_false(k, x));
        let e = choose|e: int|
            0 <= e < k && #[trigger] self.trail@[e] == x.id && self.entry(e).value != x.value;
        assert(self.records()[self.trail@[e] as int] is Some);
        assert forall|j: int| k <= j < self.trail@.len() implies (#[trigger] self.trail@[j]) != x.id by {
            assert(self.trail@[e] != self.trail@[j]);
        }
        let path = choose|path: Seq<usize>| #[trigger] snap.walk(clause, path) && path.last() == v;
        let longer = path.push(x.id);
        assert(snap.db[reason as int] == self.clauses@[reason as int]@);
        assert(snap.linked(v, x.id)) by {
            assert(snap.db[reason as int][i].id == x.id);
        }
        assert(snap.walk(clause, longer)) by {
            assert(longer[0] == path[0]);
            assert forall|q: int| 0 <= q < longer.len() - 1 implies snap.linked(
                #[trigger] longer[q],
                longer[q + 1],
            ) by {
                if q < path.len() - 1 {
                    assert(snap.linked(path[q], path[q + 1]));
                }
            }
        }
        assert(longer.last() == x.id);
    }

    /// Conflict analysis. Walks the implication graph back from the clause
    /// `clause`, whose literals are all false: from each variable to the
    /// variables of its antecedent. Returns the decisions that it reaches,
    /// the latest first. They cannot all hold: no model of the given
    /// database gives each of them its current value.
    #[verifier::rlimit(40)]
    pub fn collect_roots(&self, clause: usize) -> (roots: Vec<usize>)
        requires
            self.inv(),
            clause < self.db().len(),
            clause_false(self.valuation(), self.db()[clause as int]@),
        ensures
            roots@ == self.snapshot().analysis(clause as int),
            forall|v: usize|
                roots@.contains(v) <==> self.is_decision(v) && self.snapshot().reached(clause as int, v),
            forall|t: int| 0 <= t < roots@.len() ==> self.is_decision(#[trigger] roots@[t]),
            forall|t1: int, t2: int|
                0 <= t1 < t2 < roots@.len() ==> self.level_of(#[trigger] roots@[t1]) > self.level_of(
                    #[trigger] roots@[t2],
                ),
            forall|m: Map<usize, bool>|
                total(m) && #[trigger] models(m, self.given()) ==> !self.agrees_on(m, roots@),
    {
        let ghost snap = self.snapshot();
        let n = self.ids.len();
        let mut visited: HashSet<usize> = HashSet::new();
        proof {
            reveal(marks_of);
            assert(marks_of(visited@, n as nat).len() == n);
            assert forall|w: int| 0 <= w < n implies !#[trigger] marks_of(visited@, n as nat)[w] by {}
        }
        let conflict = &self.clauses[clause];
        let ghost c = conflict@;
        assert(clause_ok(self.clauses@[clause as int]@, self.n()));
        let mut j: usize = 0;
        while j < conflict.literals.len()
            invariant
                j <= c.len(),
                c == conflict.literals@,
                c == self.clauses@[clause as int]@,
                clause < self.clauses@.len(),
                snap == self.snapshot(),
                marks_of(visited@, n as nat).len() == n,
                n == self.n(),
                self.records().len() == n,
                clause_ok(c, self.n()),
                clause_false(self.valuation(), c),
                forall|t: int| 0 <= t < j ==> marks_of(visited@, n as nat)[(#[trigger] c[t]).id as int],
                forall|w: int|
                    0 <= w < n && #[trigger] marks_of(visited@, n as nat)[w] ==> self.records()[w] is Some && snap.reached(
                        clause as int,
                        w as usize,
                    ),
            decreases c.len() - j,
        {
            let l = conflict.literals[j];
            assert(c[j as int].id < self.n());
            proof {
                assert(lit_false(self.valuation(), c[j as int]));
                let path = seq![l.id];
                assert(snap.walk(clause as int, path)) by {
                    assert(snap.db[clause as int][j as int].id == path[0]);
                }
                assert(path.last() == l.id);
            }
            mark(&mut visited, l.id, n);
            j += 1;
        }
        let mut roots: Vec<usize> = Vec::new();
        let ghost mut at: Seq<int> = Seq::empty();
        let mut k: usize = self.trail.len();
        proof {
            self.lemma_analysis_start(clause as int, marks_of(visited@, n as nat));
        }
        while k > 0
            invariant
                self.inv(),
                snap == self.snapshot(),
                k <= self.trail@.len(),
                n == self.n(),
                clause < self.clauses@.len(),
                self.marks_ok(clause as int, marks_of(visited@, n as nat)),
                at.len() == roots@.len(),
                forall|t: int|
                    0 <= t < roots@.len() ==> k <= #[trigger] at[t] < self.trail@.len()
                        && self.trail@[at[t]] == roots@[t] && self.is_decision(roots@[t])
                        && marks_of(visited@, n as nat)[roots@[t] as int],
                forall|t1: int, t2: int| 0 <= t1 < t2 < at.len() ==> #[trigger] at[t1] > #[trigger] at[t2],
                forall|m: Map<usize, bool>| !#[trigger] self.blames(m, marks_of(visited@, n as nat), k as int, roots@),
                self.walked(marks_of(visited@, n as nat), k as int, roots@),
                roots@ == self.roots_marked(marks_of(visited@, n as nat), k as int),
            decreases k,
        {
            k -= 1;
            let v = self.trail[k];
            let ghost before = marks_of(visited@, n as nat);
            let ghost roots_before = roots@;
            assert(self.trail@[k as int] < self.n() && self.records()[self.trail@[k as int] as int] is Some);
            if marked_at(&visited, v, n) {
                let a = self.record_at(v).unwrap();
                assert(a == self.entry(k as int));
                match a.clause {
                    None => {
                        roots.push(v);
                        proof {
                            at = at.push(k as int);
                            assert(self.is_decision(v));
                            self.lemma_analysis_root(marks_of(visited@, n as nat), k as int, roots_before);
                            assert forall|t: int| 0 <= t < roots@.len() implies k <= #[trigger] at[t]
                                < self.trail@.len() && self.trail@[at[t]] == roots@[t]
                                && self.is_decision(roots@[t]) && marks_of(visited@, n as nat)[roots@[t] as int] by {
                                if t < roots_before.len() {
                                    assert(roots@[t] == roots_before[t]);
                                }
                            }
                        }
                    },
                    Some(reason) => {
                        let rc = &self.clauses[reason];
                        let ghost r = rc@;
                        assert(self.forced_by(k as int, reason as int)) by {
                            assert(self.reasons_ok());
                        }
                        let mut i: usize = 0;
                        while i < rc.literals.len()
                            invariant
                                self.inv(),
                                snap == self.snapshot(),
                                i <= r.len(),
                                r == rc.literals@,
                                r == self.clauses@[reason as int]@,
                                reason < self.clauses@.len(),
                                clause < self.clauses@.len(),
                                k < self.trail@.len(),
                                v == self.trail@[k as int],
                                self.entry(k as int).clause == Some(reason),
                                snap.reached(clause as int, v),
                                n == self.n(),
                                before.len() == n,
                                self.marks_ok(clause as int, marks_of(visited@, n as nat)),
                                forall|w: int| 0 <= w < n && before[w] ==> #[trigger] marks_of(visited@, n as nat)[w],
                                forall|t: int|
                                    0 <= t < i && (#[trigger] r[t]).id != v ==> marks_of(visited@, n as nat)[r[t].id as int],
                                forall|j: int|
                                    k <= j < self.trail@.len() ==> marks_of(visited@, n as nat)[(#[trigger] self.trail@[j]) as int]
                                        == before[self.trail@[j] as int],
                            decreases r.len() - i,
                        {
                            let x = rc.literals[i];
                            if x.id != v {
                                proof {
                                    self.lemma_analysis_mark(clause as int, k as int, reason, i as int);
                                }
                                mark(&mut visited, x.id, n);
                            }
                            i += 1;
                        }
                        proof {
                            self.lemma_analysis_reason(before, marks_of(visited@, n as nat), k as int, roots@, reason);
                            assert forall|t: int| 0 <= t < roots@.len() implies k <= #[trigger] at[t]
                                < self.trail@.len() && self.trail@[at[t]] == roots@[t]
                                && self.is_decision(roots@[t]) && marks_of(visited@, n as nat)[roots@[t] as int] by {
                                assert(at[t] >= k);
                                assert(before[roots@[t] as int]);
                            }
                        }
                    },
                }
            } else {
                proof {
                    self.lemma_analysis_skip(marks_of(visited@, n as nat), k as int, roots@);
                    assert forall|t: int| 0 <= t < roots@.len() implies k <= #[trigger] at[t]
                        < self.trail@.len() && self.trail@[at[t]] == roots@[t] && self.is_decision(
                        roots@[t],
                    ) && marks_of(visited@, n as nat)[roots@[t] as int] by {
                        assert(at[t] >= k);
                    }
                }
            }
        }
        proof {
            assert forall|m: Map<usize, bool>| total(m) && #[trigger] models(
                m,
                self.given(),
            ) implies !self.agrees_on(m, roots@) by {
                if self.agrees_on(m, roots@) {
                    assert(self.blames(m, marks_of(visited@, n as nat), 0, roots@));
                }
            }
            assert forall|t: int| 0 <= t < roots@.len() implies self.is_decision(
                #[trigger] roots@[t],
            ) by {
                assert(k <= at[t]);
            }
            assert forall|t1: int, t2: int| 0 <= t1 < t2 < roots@.len() implies self.level_of(
                #[trigger] roots@[t1],
            ) > self.level_of(#[trigger] roots@[t2]) by {
                let later_at = at[t1];
                let earlier_at = at[t2];
                assert(later_at > earlier_at);
                assert(self.level_of(roots@[t1]) == self.entry(later_at).decision_level);
                assert(self.level_of(roots@[t2]) == self.entry(earlier_at).decision_level);
                assert(self.entry(earlier_at).decision_level <= self.entry(later_at).decision_level);
                assert(self.entry(later_at).clause is None);
                assert(self.entry(earlier_at).clause is None);
                assert(self.reasons_ok());
            }
            assert forall|j: int| 0 <= j < self.trail@.len() implies (marks_of(visited@, n as nat)[(#[trigger] self.trail@[j]) as int]
                <==> snap.reached(clause as int, self.trail@[j])) by {
                if snap.reached(clause as int, self.trail@[j]) {
                    let path = choose|path: Seq<usize>| #[trigger]
                        snap.walk(clause as int, path) && path.last() == self.trail@[j];
                    self.lemma_walk_marked(clause as int, path, marks_of(visited@, n as nat), roots@);
                }
            }
            self.lemma_roots_analysis(clause as int, marks_of(visited@, n as nat), 0);
            assert forall|v: usize| roots@.contains(v) <==> self.is_decision(v) && snap.reached(
                clause as int,
                v,
            ) by {
                if roots@.contains(v) {
                    let t = choose|t: int| 0 <= t < roots@.len() && roots@[t] == v;
                    assert(k <= at[t]);
                    assert(marks_of(visited@, n as nat)[roots@[t] as int]);
                }
                if self.is_decision(v) && snap.reached(clause as int, v) {
                    let path = choose|path: Seq<usize>| #[trigger]
                        snap.walk(clause as int, path) && path.last() == v;
                    self.lemma_walk_marked(clause as int, path, marks_of(visited@, n as nat), roots@);
                    assert(self.records()[v as int] is Some);
                    assert(self.trail@.contains(v));
                    let j = choose|j: int| 0 <= j < self.trail@.len() && self.trail@[j] == v;
                    assert(marks_of(visited@, n as nat)[self.trail@[j] as int]);
                    assert(self.entry(j).clause is None);
                }
            }
        }
        roots
    }
}

/// `b` to the power `e`.
pub open spec fn power(b: nat, e: nat) -> nat
    decreases e,
{
    if e == 0 {
        1
    } else {
        b * power(b, (e - 1) as nat)
    }
}

proof fn lemma_power_grows(b: nat, e1: nat, e2: nat)
    requires
        b >= 1,
        e1 <= e2,
    ensures
        1 <= power(b, e1) <= power(b, e2),
    decreases e2,
{
    if e1 == 0 {
        if e2 > 0 {
            lemma_power_grows(b, 0, (e2 - 1) as nat);
            let p = power(b, (e2 - 1) as nat);
            assert(b * p >= 1) by (nonlinear_arith)
                requires
                    b >= 1,
                    p >= 1,
            ;
        }
    } else {
        lemma_power_grows(b, (e1 - 1) as nat, (e2 - 1) as nat);
        let later_at = power(b, (e1 - 1) as nat);
        let earlier_at = power(b, (e2 - 1) as nat);
        assert(1 <= b * later_at <= b * earlier_at) by (nonlinear_arith)
            requires
                b >= 1,
                1 <= later_at <= earlier_at,
        ;
    }
}

/// A literal occurs in at most as many clauses as there are.
pub proof fn lemma_occurrences_bound(f: Seq<Seq<Literal>>, l: Literal)
    ensures
        occurrences(f, l) <= f.len(),
    decreases f.len(),
{
    if f.len() > 0 {
        lemma_occurrences_bound(f.drop_last(), l);
    }
}

/// One more clause adds one to the count of each of its literals.
pub proof fn lemma_occurrences_push(f: Seq<Seq<Literal>>, c: Seq<Literal>, l: Literal)
    ensures
        occurrences(f.push(c), l) == occurrences(f, l) + if c.contains(l) {
            1nat
        } else {
            0nat
        },
{
    assert(f.push(c).drop_last() =~= f);
}

/// Brings the two tables of counts, which stand for the clauses `before`,
/// up to date with one more clause.
fn count_clause(
    positive: &mut Vec<usize>,
    negative: &mut Vec<usize>,
    clause: &Clause,
    Ghost(before): Ghost<Seq<Seq<Literal>>>,
)
    requires
        old(positive)@.len() == old(negative)@.len(),
        clause_ok(clause@, old(positive)@.len()),
        before.len() < usize::MAX,
        forall|v: usize|
            v < old(positive)@.len() ==> (#[trigger] old(positive)@[v as int]) == occurrences(
                before,
                Literal { value: true, id: v },
            ),
        forall|v: usize|
            v < old(negative)@.len() ==> (#[trigger] old(negative)@[v as int]) == occurrences(
                before,
                Literal { value: false, id: v },
            ),
    ensures
        final(positive)@.len() == old(positive)@.len(),
        final(negative)@.len() == old(negative)@.len(),
        forall|v: usize|
            v < final(positive)@.len() ==> (#[trigger] final(positive)@[v as int]) == occurrences(
                before.push(clause@),
                Literal { value: true, id: v },
            ),
        forall|v: usize|
            v < final(negative)@.len() ==> (#[trigger] final(negative)@[v as int]) == occurrences(
                before.push(clause@),
                Literal { value: false, id: v },
            ),
{
    let ghost c = clause@;
    let ghost n = positive@.len();
    let n_lits = clause.literals.len();
    let mut j: usize = 0;
    while j < n_lits
        invariant
            j <= n_lits,
            n_lits == c.len(),
            c == clause.literals@,
            clause_ok(c, n),
            before.len() < usize::MAX,
            positive@.len() == n,
            negative@.len() == n,
            forall|v: usize|
                v < n ==> (#[trigger] positive@[v as int]) == occurrences(
                    before,
                    Literal { value: true, id: v },
                ) + if c.take(j as int).contains(Literal { value: true, id: v }) {
                    1nat
                } else {
                    0nat
                },
            forall|v: usize|
                v < n ==> (#[trigger] negative@[v as int]) == occurrences(
                    before,
                    Literal { value: false, id: v },
                ) + if c.take(j as int).contains(Literal { value: false, id: v }) {
                    1nat
                } else {
                    0nat
                },
        decreases n_lits - j,
    {
        let l = clause.literals[j];
        let ghost front = c.take(j as int);
        let ghost more = c.take(j as int + 1);
        let ghost positive_before = positive@;
        let ghost negative_before = negative@;
        proof {
            assert(l == c[j as int]);
            assert(c[j as int].id < n);
            lemma_occurrences_bound(before, l);
            assert(!front.contains(l)) by {
                if front.contains(l) {
                    let t = choose|t: int| 0 <= t < front.len() && front[t] == l;
                    assert(c[t] == c[j as int]);
                }
            }
            assert forall|x: Literal| more.contains(x) <==> (front.contains(x) || x == l) by {
                if more.contains(x) {
                    let t = choose|t: int| 0 <= t < more.len() && more[t] == x;
                    if t < j {
                        assert(front[t] == x);
                    }
                }
                if front.contains(x) {
                    let t = choose|t: int| 0 <= t < front.len() && front[t] == x;
                    assert(more[t] == x);
                }
                if x == l {
                    assert(more[j as int] == x);
                }
            }
            assert(l == Literal { value: l.value, id: l.id });
        }
        if l.value {
            let f = positive[l.id];
            assert(f == occurrences(before, l));
            positive.set(l.id, f + 1);
        } else {
            let f = negative[l.id];
            assert(f == occurrences(before, l));
            negative.set(l.id, f + 1);
        }
        proof {
            assert forall|v: usize| v < n implies (#[trigger] positive@[v as int]) == occurrences(
                before,
                Literal { value: true, id: v },
            ) + if more.contains(Literal { value: true, id: v }) {
                1nat
            } else {
                0nat
            } by {
                let x = Literal { value: true, id: v };
                assert(more.contains(x) <==> (front.contains(x) || x == l));
                assert(positive_before[v as int] == occurrences(before, x) + if front.contains(x) {
                    1nat
                } else {
                    0nat
                });
            }
            assert forall|v: usize| v < n implies (#[trigger] negative@[v as int]) == occurrences(
                before,
                Literal { value: false, id: v },
            ) + if more.contains(Literal { value: false, id: v }) {
                1nat
            } else {
                0nat
            } by {
                let x = Literal { value: false, id: v };
                assert(more.contains(x) <==> (front.contains(x) || x == l));
                assert(negative_before[v as int] == occurrences(before, x) + if front.contains(x) {
                    1nat
                } else {
                    0nat
                });
            }
        }
        j += 1;
    }
    proof {
        assert(c.take(n_lits as int) =~= c);
        assert forall|v: usize| v < n implies (#[trigger] positive@[v as int]) == occurrences(
            before.push(c),
            Literal { value: true, id: v },
        ) by {
            lemma_occurrences_push(before, c, Literal { value: true, id: v });
        }
        assert forall|v: usize| v < n implies (#[trigger] negative@[v as int]) == occurrences(
            before.push(c),
            Literal { value: false, id: v },
        ) by {
            lemma_occurrences_push(before, c, Literal { value: false, id: v });
        }
    }
}

impl CDCLSolver {
    /// The weight of an assignment made at `level`: one more than all the
    /// assignments at higher levels can weigh together.
    spec fn weight(&self, level: int) -> nat {
        power(self.n() + 1, (self.n() - level) as nat)
    }

    /// The weights of the first `k` assignments of the trail, added up.
    spec fn mass_upto(&self, k: int) -> nat
        decreases k,
    {
        if k <= 0 {
            0
        } else {
            self.mass_upto(k - 1) + self.weight(self.entry(k - 1).decision_level as int)
        }
    }

    /// A number that every step of the search raises: each assignment
    /// counts, and the more the lower its level.
    pub closed spec fn progress(&self) -> nat {
        self.mass_upto(self.trail@.len() as int)
    }

    /// A number that `progress` never exceeds.
    pub closed spec fn horizon(&self) -> nat {
        self.n() * power(self.n() + 1, self.n())
    }

    proof fn lemma_weight(&self, l1: int, l2: int)
        requires
            0 <= l1 <= l2 <= self.n(),
        ensures
            1 <= self.weight(l2) <= self.weight(l1),
            l1 < self.n() ==> self.weight(l1) == (self.n() + 1) * self.weight(l1 + 1),
    {
        lemma_power_grows(self.n() + 1, (self.n() - l2) as nat, (self.n() - l1) as nat);
    }

    /// Two engines whose first `k` assignments are the same weigh them the same.
    proof fn lemma_mass_same(&self, other: &CDCLSolver, k: int)
        requires
            self.n() == other.n(),
            0 <= k <= self.trail@.len(),
            k <= other.trail@.len(),
            forall|j: int| 0 <= j < k ==> (#[trigger] self.entry(j)).decision_level == other.entry(j).decision_level,
        ensures
            self.mass_upto(k) == other.mass_upto(k),
        decreases k,
    {
        if k > 0 {
            self.lemma_mass_same(other, k - 1);
            assert(self.entry(k - 1).decision_level == other.entry(k - 1).decision_level);
        }
    }

    /// The weights of the assignments from `cut` to `k`, all above level
    /// `b`, come to at most `k - cut` times the weight of level `b + 1`.
    proof fn lemma_mass_tail(&self, cut: int, k: int, b: int)
        requires
            self.inv(),
            0 <= cut <= k <= self.trail@.len(),
            0 <= b < self.n(),
            forall|j: int| cut <= j < self.trail@.len() ==> (#[trigger] self.entry(j)).decision_level > b,
        ensures
            self.mass_upto(k) <= self.mass_upto(cut) + (k - cut) * self.weight(b + 1),
        decreases k - cut,
    {
        if k > cut {
            self.lemma_mass_tail(cut, k - 1, b);
            let lv = self.entry(k - 1).decision_level as int;
            assert(lv <= self.level());
            self.lemma_weight(b + 1, lv);
            let w = self.weight(b + 1);
            assert((k - 1 - cut) * w + w == (k - cut) * w) by (nonlinear_arith);
        }
    }

    /// `progress` stays below `horizon`.
    proof fn lemma_mass_bound(&self, k: int)
        requires
            self.inv(),
            0 <= k <= self.trail@.len(),
        ensures
            self.mass_upto(k) <= k * self.weight(0),
        decreases k,
    {
        if k > 0 {
            self.lemma_mass_bound(k - 1);
            let lv = self.entry(k - 1).decision_level as int;
            assert(lv <= self.level());
            self.lemma_weight(0, lv);
            let w = self.weight(0);
            assert((k - 1) * w + w == k * w) by (nonlinear_arith);
        }
    }

    /// `progress` stays below `horizon`.
    pub proof fn lemma_progress_bound(&self)
        requires
            self.inv(),
        ensures
            self.progress() <= self.horizon(),
    {
        let k = self.trail@.len() as int;
        self.lemma_mass_bound(k);
        let w = self.weight(0);
        let n = self.n() as int;
        assert(k * w <= n * w) by (nonlinear_arith)
            requires
                0 <= k <= n,
                w >= 0,
        ;
    }

    /// The snapshot weighs what the engine weighs.
    proof fn lemma_mass_snapshot(&self, k: int)
        requires
            self.inv(),
            0 <= k <= self.trail@.len(),
        ensures
            self.mass_upto(k) == self.snapshot().mass(k),
        decreases k,
    {
        if k > 0 {
            self.lemma_mass_snapshot(k - 1);
        }
    }

    /// The progress of the engine is that of its snapshot.
    pub proof fn lemma_progress_snapshot(&self)
        requires
            self.inv(),
        ensures
            self.progress() == self.snapshot().progress(),
            self.horizon() == self.snapshot().horizon(),
            self.progress() <= self.horizon(),
            self.snapshot().records.len() == self.n(),
    {
        self.lemma_mass_snapshot(self.trail@.len() as int);
        self.lemma_progress_bound();
    }

    /// More assignments weigh more.
    pub proof fn lemma_grew_progress(&self, before: &CDCLSolver)
        requires
            self.inv(),
            before.inv(),
            self.grew_from(before),
        ensures
            before.progress() <= self.progress(),
    {
        let k0 = before.trail@.len() as int;
        assert forall|j: int| 0 <= j < k0 implies (#[trigger] self.entry(j)).decision_level
            == before.entry(j).decision_level by {
            assert(self.trail@[j] == before.trail@[j]);
            assert(before.trail@[j] < before.n());
            assert(before.records()[before.trail@[j] as int] is Some);
        }
        self.lemma_mass_same(before, k0);
        self.lemma_mass_upto_grows(k0, self.trail@.len() as int);
    }

    proof fn lemma_mass_upto_grows(&self, k1: int, k2: int)
        requires
            0 <= k1 <= k2,
        ensures
            self.mass_upto(k1) <= self.mass_upto(k2),
        decreases k2 - k1,
    {
        if k1 < k2 {
            self.lemma_mass_upto_grows(k1, k2 - 1);
        }
    }

    /// Nothing of the search has changed from `before` to `self`.
    spec fn same_search(&self, before: &CDCLSolver) -> bool {
        &&& self.ids@ == before.ids@
        &&& self.given@ == before.given@
        &&& self.forced@ == before.forced@
        &&& self.source@ == before.source@
        &&& self.trail@ == before.trail@
        &&& self.records() == before.records()
        &&& self.decision_nodes@ == before.decision_nodes@
    }

    /// Appends `clause`, which follows from the given database, and counts
    /// its literals. Returns its index.
    #[verifier::rlimit(40)]
    fn learn(&mut self, clause: Clause) -> (index: usize)
        requires
            old(self).inv(),
            clause_ok(clause@, old(self).n()),
            forall|m: Map<usize, bool>|
                total(m) && #[trigger] models(m, old(self).given@) ==> clause_true(m, clause@),
        ensures
            final(self).inv(),
            final(self).same_search(old(self)),
            final(self).res == old(self).res,
            final(self).clauses@ == old(self).clauses@.push(clause),
            index == old(self).clauses@.len(),
            final(self).valuation() == old(self).valuation(),
            final(self).progress() == old(self).progress(),
            final(self).level() == old(self).level(),
    {
        let ghost before = formula(self.clauses@);
        let ghost c = clause@;
        let index = self.clauses.len();
        self.clauses.push(clause);
        let total_clauses = self.clauses.len();
        count_clause(&mut self.positive, &mut self.negative, &self.clauses[index], Ghost(before));
        self.watcher.add(index, &self.clauses[index], Ghost(before));
        proof {
            let now = formula(self.clauses@);
            assert(now =~= before.push(c));
            assert forall|i: int| 0 <= i < self.clauses@.len() implies clause_ok(
                #[trigger] self.clauses@[i]@,
                self.n(),
            ) by {
                if i < index {
                    assert(self.clauses@[i] == old(self).clauses@[i]);
                }
            }
            old(self).lemma_same_search(self);
            assert(self.counts_ok()) by {
                assert forall|v: usize| v < self.n() implies (#[trigger] self.positive@[v as int])
                    + self.negative@[v as int] >= 1 by {
                    assert(old(self).positive@[v as int] + old(self).negative@[v as int] >= 1);
                    lemma_occurrences_push(before, c, Literal { value: true, id: v });
                    lemma_occurrences_push(before, c, Literal { value: false, id: v });
                }
            }
            assert(self.learned_ok()) by {
                assert forall|i: int| 0 <= i < self.given@.len() implies #[trigger] self.given@[i]
                    == self.clauses@[i]@ by {
                    assert(self.clauses@[i] == old(self).clauses@[i]);
                }
                assert forall|m: Map<usize, bool>| total(m) && #[trigger] models(
                    m,
                    self.given@,
                ) implies models(m, now) by {
                    assert(models(m, before));
                    assert forall|i: int| 0 <= i < now.len() implies clause_true(m, #[trigger] now[i]) by {
                        if i < before.len() {
                            assert(now[i] == before[i]);
                        }
                    }
                }
            }
        }
        index
    }

    /// After a clause was appended, what held of the search still holds.
    proof fn lemma_same_search(&self, next: &CDCLSolver)
        requires
            self.inv(),
            next.same_search(self),
            self.clauses@.is_prefix_of(next.clauses@),
            forall|i: int| 0 <= i < next.clauses@.len() ==> clause_ok(#[trigger] next.clauses@[i]@, next.n()),
        ensures
            next.shape_ok(),
            next.trail_ok(),
            next.levels_ok(),
            next.reasons_ok(),
            next.valuation() == self.valuation(),
            next.progress() == self.progress(),
            next.level() == self.level(),
    {
        assert(next.valuation() =~= self.valuation());
        assert forall|k: int| 0 <= k < next.trail@.len() implies #[trigger] next.entry(k) == self.entry(k) by {}
        assert forall|k: int| 0 <= k < next.trail@.len() implies match (#[trigger] next.entry(
            k,
        )).clause {
            Some(c) => next.forced_by(k, c as int),
            None => next.entry(k).decision_level >= 1 && next.decision_nodes@[next.entry(
                k,
            ).decision_level as int] == next.trail@[k],
        } by {
            assert(next.entry(k) == self.entry(k));
            match self.entry(k).clause {
                Some(c) => {
                    assert(self.forced_by(k, c as int));
                    assert(next.clauses@[c as int] == self.clauses@[c as int]);
                    let cl = self.clauses@[c as int]@;
                    assert forall|j: int|
                        0 <= j < cl.len() && #[trigger] cl[j] != (Literal {
                            value: next.entry(k).value,
                            id: next.trail@[k],
                        }) implies next.earlier_false(k, cl[j]) by {
                        assert(self.earlier_false(k, cl[j]));
                        let e = choose|e: int|
                            0 <= e < k && #[trigger] self.trail@[e] == cl[j].id && self.entry(e).value
                                != cl[j].value;
                        assert(next.trail@[e] == cl[j].id && next.entry(e) == self.entry(e));
                    }
                },
                None => {},
            }
        }
        assert(next.levels_ok()) by {
            assert forall|k: int| 0 <= k < next.trail@.len() implies (#[trigger] next.entry(
                k,
            )).decision_level <= next.level() && next.entry(k).decision_level <= k + 1 by {
                assert(next.entry(k) == self.entry(k));
            }
            assert forall|k1: int, k2: int| 0 <= k1 <= k2 < next.trail@.len() implies (#[trigger] next.entry(
                k1,
            )).decision_level <= (#[trigger] next.entry(k2)).decision_level by {
                assert(next.entry(k1) == self.entry(k1));
                assert(next.entry(k2) == self.entry(k2));
            }
        }
        next.lemma_mass_same(self, self.trail@.len() as int);
    }
}


impl CDCLSolver {
    /// `self` is `before` cut back to level `b`: the first `cut` assignments
    /// of the trail, which are those at levels up to `b`, are kept as they
    /// were and the others are gone.
    spec fn cut_from(&self, before: &CDCLSolver, cut: int, b: int) -> bool {
        &&& self.ids@ == before.ids@
        &&& self.clauses@ == before.clauses@
        &&& self.given@ == before.given@
        &&& self.res == before.res
        &&& self.positive@ == before.positive@
        &&& self.negative@ == before.negative@
        &&& self.watcher == before.watcher
        &&& self.forced@ == before.forced@
        &&& self.source@ == before.source@
        &&& 0 <= cut <= before.trail@.len()
        &&& self.trail@ == before.trail@.take(cut)
        &&& self.decision_nodes@ == before.decision_nodes@.take(b + 1)
        &&& self.records().len() == before.records().len()
        &&& forall|k: int|
            0 <= k < cut ==> self.records()[(#[trigger] before.trail@[k]) as int]
                == before.records()[before.trail@[k] as int] && before.entry(k).decision_level <= b
        &&& forall|k: int|
            cut <= k < before.trail@.len() ==> self.records()[(#[trigger] before.trail@[k]) as int] is None
                && before.entry(k).decision_level > b
        &&& forall|v: int|
            0 <= v < self.records().len() && (#[trigger] before.records()[v]) is None
                ==> self.records()[v] is None
    }

    #[verifier::rlimit(40)]
    proof fn lemma_cut_from(&self, before: &CDCLSolver, cut: int, b: int)
        requires
            before.inv(),
            self.cut_from(before, cut, b),
            0 <= b <= before.level(),
            b <= cut,
        ensures
            self.inv(),
            self.level() == b,
            self.mass_upto(cut) == before.mass_upto(cut),
    {
        assert forall|k: int| 0 <= k < cut implies self.trail@[k] == #[trigger] before.trail@[k]
            && self.entry(k) == before.entry(k) by {}
        assert(self.trail@.no_duplicates());
        assert forall|k: int| 0 <= k < self.trail@.len() implies (#[trigger] self.trail@[k]) < self.n()
            && self.records()[self.trail@[k] as int] is Some by {
            assert(self.trail@[k] == before.trail@[k]);
        }
        assert forall|v: usize| v < self.n() && (#[trigger] self.records()[v as int]) is Some implies self.trail@.contains(
            v,
        ) by {
            if before.records()[v as int] is None {
                assert(self.records()[v as int] is None);
            }
            assert(before.records()[v as int] is Some);
            assert(before.trail@.contains(v));
            let k = choose|k: int| 0 <= k < before.trail@.len() && before.trail@[k] == v;
            if k >= cut {
                assert(self.records()[before.trail@[k] as int] is None);
            }
            assert(k < cut);
            assert(self.trail@[k] == before.trail@[k]);
        }
        assert(self.trail_ok());
        assert(self.shape_ok());
        assert forall|k: int| 0 <= k < self.trail@.len() implies (#[trigger] self.entry(k)).decision_level
            <= self.level() && self.entry(k).decision_level <= k + 1 by {
            assert(self.entry(k) == before.entry(k));
            assert(self.trail@[k] == before.trail@[k]);
        }
        assert forall|k1: int, k2: int| 0 <= k1 <= k2 < self.trail@.len() implies (#[trigger] self.entry(
            k1,
        )).decision_level <= (#[trigger] self.entry(k2)).decision_level by {
            assert(self.entry(k1) == before.entry(k1));
            assert(self.entry(k2) == before.entry(k2));
        }
        assert(self.levels_ok());
        assert forall|k: int| 0 <= k < self.trail@.len() implies match (#[trigger] self.entry(
            k,
        )).clause {
            Some(c) => self.forced_by(k, c as int),
            None => self.entry(k).decision_level >= 1 && self.decision_nodes@[self.entry(
                k,
            ).decision_level as int] == self.trail@[k],
        } by {
            assert(self.entry(k) == before.entry(k));
            assert(self.trail@[k] == before.trail@[k]);
            match before.entry(k).clause {
                Some(c) => {
                    assert(before.forced_by(k, c as int));
                    let cl = before.clauses@[c as int]@;
                    assert forall|j: int|
                        0 <= j < cl.len() && #[trigger] cl[j] != (Literal {
                            value: self.entry(k).value,
                            id: self.trail@[k],
                        }) implies self.earlier_false(k, cl[j]) by {
                        assert(before.earlier_false(k, cl[j]));
                        let e = choose|e: int|
                            0 <= e < k && #[trigger] before.trail@[e] == cl[j].id && before.entry(
                                e,
                            ).value != cl[j].value;
                        assert(self.trail@[e] == cl[j].id && self.entry(e) == before.entry(e));
                    }
                },
                None => {},
            }
        }
        assert(self.reasons_ok());
        assert(self.learned_ok());
        assert(self.counts_ok());
        self.lemma_mass_same(before, cut);
    }

    /// Engines with the same trail and records keep the same.
    proof fn lemma_kept_same(&self, one: &CDCLSolver, other: &CDCLSolver, b: int, k: int)
        requires
            one.trail@ == other.trail@,
            one.records() == other.records(),
        ensures
            one.snapshot().kept(b, k) == other.snapshot().kept(b, k),
        decreases k,
    {
        if k > 0 {
            self.lemma_kept_same(one, other, b, k - 1);
        }
    }

    /// Takes back every assignment above level `b`, which becomes the
    /// current level. Returns how many assignments are left.
    fn retreat(&mut self, b: usize) -> (cut: usize)
        requires
            old(self).inv(),
            b <= old(self).level(),
            b == 0 || exists|k: int|
                0 <= k < old(self).trail@.len() && (#[trigger] old(self).entry(k)).decision_level == b,
        ensures
            final(self).inv(),
            final(self).level() == b,
            final(self).cut_from(old(self), cut as int, b as int),
            final(self).mass_upto(cut as int) == old(self).mass_upto(cut as int),
            cut == old(self).snapshot().kept(b as int, old(self).trail@.len() as int),
    {
        let mut cut: usize = self.trail.len();
        while cut > 0
            invariant_except_break
                cut <= old(self).trail@.len(),
            invariant
                old(self).inv(),
                self.ids@ == old(self).ids@,
                self.clauses@ == old(self).clauses@,
                self.given@ == old(self).given@,
                self.res == old(self).res,
                self.positive@ == old(self).positive@,
                self.negative@ == old(self).negative@,
                self.watcher == old(self).watcher,
                self.forced@ == old(self).forced@,
                self.source@ == old(self).source@,
                self.trail@ == old(self).trail@,
                self.decision_nodes@ == old(self).decision_nodes@,
                self.records().len() == old(self).records().len(),
                cut <= old(self).trail@.len(),
                forall|k: int|
                    0 <= k < cut ==> self.records()[(#[trigger] old(self).trail@[k]) as int] == old(
                        self,
                    ).records()[old(self).trail@[k] as int],
                forall|k: int|
                    cut <= k < old(self).trail@.len() ==> self.records()[(#[trigger] old(
                        self,
                    ).trail@[k]) as int] is None && old(self).entry(k).decision_level > b,
                forall|v: int|
                    0 <= v < self.records().len() && (#[trigger] old(self).records()[v]) is None
                        ==> self.records()[v] is None,
                old(self).snapshot().kept(b as int, cut as int) == old(self).snapshot().kept(
                    b as int,
                    old(self).trail@.len() as int,
                ),
            ensures
                forall|k: int| 0 <= k < cut ==> (#[trigger] old(self).entry(k)).decision_level <= b,
                cut == old(self).snapshot().kept(b as int, old(self).trail@.len() as int),
            decreases cut,
        {
            let v = self.trail[cut - 1];
            assert(old(self).trail@[cut - 1] < old(self).n() && old(self).records()[old(
                self,
            ).trail@[cut - 1] as int] is Some);
            let a = self.record_at(v).unwrap();
            assert(a == old(self).entry(cut - 1));
            assert(a == old(self).snapshot().entry(cut - 1));
            if a.decision_level <= b {
                proof {
                    assert forall|k: int| 0 <= k < cut implies (#[trigger] old(self).entry(
                        k,
                    )).decision_level <= b by {
                        assert(old(self).entry(k).decision_level <= old(self).entry(
                            cut - 1,
                        ).decision_level);
                    }
                }
                break ;
            }
            self.set_record(v, None);
            proof {
                assert forall|k: int| 0 <= k < cut - 1 implies self.records()[(#[trigger] old(
                    self,
                ).trail@[k]) as int] == old(self).records()[old(self).trail@[k] as int] by {
                    assert(old(self).trail@[k] != old(self).trail@[cut - 1]);
                }
            }
            cut -= 1;
        }
        self.trail.truncate(cut);
        let levels = self.decision_nodes.len();
        assert(b < levels);
        self.decision_nodes.truncate(b + 1);
        proof {
            assert(b <= cut) by {
                if b > 0 {
                    let k = choose|k: int|
                        0 <= k < old(self).trail@.len() && (#[trigger] old(self).entry(k)).decision_level
                            == b;
                    if k >= cut {
                        assert(old(self).trail@[k] == old(self).trail@[k]);
                    }
                    assert(old(self).entry(k).decision_level <= k + 1);
                }
            }
            assert(self.cut_from(old(self), cut as int, b as int)) by {
                assert forall|k: int| 0 <= k < cut implies self.records()[(#[trigger] old(
                    self,
                ).trail@[k]) as int] == old(self).records()[old(self).trail@[k] as int] && old(
                    self,
                ).entry(k).decision_level <= b by {}
            }
            self.lemma_cut_from(old(self), cut as int, b as int);
        }
        cut
    }
}


impl CDCLSolver {
    /// The clause that forbids the decisions `roots` as they stand: of each
    /// its literal with the value it does not have.
    pub closed spec fn forbids(&self, roots: Seq<usize>) -> Seq<Literal> {
        Seq::new(
            roots.len(),
            |t: int| Literal { value: !self.valuation()[roots[t]], id: roots[t] },
        )
    }

    /// The three steps of a jump back, one after the other, are the jump.
    #[verifier::rlimit(40)]
    proof fn lemma_jumped(
        &self,
        mid: &CDCLSolver,
        low: &CDCLSolver,
        last: &CDCLSolver,
        roots: Seq<usize>,
        cut: int,
        b: usize,
        index: usize,
        bound: usize,
    )
        requires
            self.inv(),
            mid.inv(),
            bound == self.records().len(),
            roots.len() >= 1,
            forall|t: int| 0 <= t < roots.len() ==> self.is_decision(#[trigger] roots[t]),
            b == if roots.len() >= 2 {
                self.level_of(roots[1])
            } else {
                0
            },
            mid.same_search(self),
            index == self.clauses@.len(),
            mid.clauses@.len() == index + 1,
            formula(mid.clauses@) == formula(self.clauses@).push(self.forbids(roots)),
            low.cut_from(mid, cut, b as int),
            cut == mid.snapshot().kept(b as int, mid.trail@.len() as int),
            low.then_assigned(
                last,
                roots[0],
                Assignment {
                    value: !self.valuation()[roots[0]],
                    clause: Some(index),
                    decision_level: b,
                },
            ),
            last.decision_nodes@ == low.decision_nodes@,
        ensures
            last.snapshot() == self.snapshot().jumped(roots),
    {
        let then = self.snapshot();
        let target = then.jumped(roots);
        let now = last.snapshot();
        let top = roots[0];
        assert(self.is_decision(roots[0]));
        assert(then.forbids(roots) =~= self.forbids(roots)) by {
            assert forall|t: int| 0 <= t < roots.len() implies then.forbids(roots)[t] == self.forbids(
                roots,
            )[t] by {
                assert(self.is_decision(roots[t]));
            }
        }
        assert(now.db =~= target.db);
        if roots.len() >= 2 {
            assert(self.is_decision(roots[1]));
        }
        assert(then.kept(b as int, then.trail.len() as int) == cut) by {
            self.lemma_kept_same(mid, self, b as int, then.trail.len() as int);
        }
        assert(now.trail =~= target.trail);
        assert(now.nodes =~= target.nodes);
        assert(now.records =~= target.records) by {
            assert forall|v: int| 0 <= v < now.records.len() implies now.records[v] == target.records[v] by {
                if v != top {
                    assert(last.records()[v] == low.records()[v]);
                    if exists|k: int| cut <= k < then.trail.len() && #[trigger] then.trail[k] == v {
                        let k = choose|k: int| cut <= k < then.trail.len() && #[trigger] then.trail[k] == v;
                        assert(low.records()[mid.trail@[k] as int] is None);
                    } else if mid.records()[v] is Some {
                        let w = v as usize;
                        assert(mid.records()[w as int] is Some);
                        assert(mid.trail@.contains(w));
                        let k = choose|k: int| 0 <= k < mid.trail@.len() && mid.trail@[k] == w;
                        assert(then.trail[k] == v);
                        assert(k < cut);
                        assert(low.records()[mid.trail@[k] as int] == mid.records()[mid.trail@[k] as int]);
                    } else {
                        assert(low.records()[v] is None);
                    }
                }
            }
        }
    }

    /// Learns from a conflict whose decisions are `roots`, the latest first,
    /// and jumps back. The clause that forbids them is appended. The level
    /// falls to that of the second root, or to zero where there is one root
    /// only, and every assignment above it is taken back. The first root
    /// then gets the other value, with the new clause as its antecedent.
    #[verifier::rlimit(40)]
    pub fn backjump(&mut self, roots: &Vec<usize>)
        requires
            old(self).inv(),
            roots@.len() >= 1,
            forall|t: int| 0 <= t < roots@.len() ==> old(self).is_decision(#[trigger] roots@[t]),
            forall|t1: int, t2: int|
                0 <= t1 < t2 < roots@.len() ==> old(self).level_of(#[trigger] roots@[t1]) > old(
                    self,
                ).level_of(#[trigger] roots@[t2]),
            forall|m: Map<usize, bool>|
                total(m) && #[trigger] models(m, old(self).given()) ==> !old(self).agrees_on(m, roots@),
        ensures
            final(self).inv(),
            final(self).given() == old(self).given(),
            final(self).names() == old(self).names(),
            final(self).units() == old(self).units(),
            final(self).source() == old(self).source(),
            final(self).verdict() == old(self).verdict(),
            final(self).db().len() == old(self).db().len() + 1,
            old(self).db().is_prefix_of(final(self).db()),
            final(self).db().last()@ == old(self).forbids(roots@),
            final(self).level() == if roots@.len() >= 2 {
                old(self).level_of(roots@[1])
            } else {
                0
            },
            final(self).level() < old(self).level(),
            final(self).trail().len() >= 1,
            final(self).trail().last() == roots@[0],
            final(self).trail().drop_last().is_prefix_of(old(self).trail()),
            final(self).record(roots@[0] as int) == Some(
                Assignment {
                    value: !old(self).valuation()[roots@[0]],
                    clause: Some(old(self).db().len() as usize),
                    decision_level: final(self).level() as usize,
                },
            ),
            final(self).valuation().contains_key(roots@[0]),
            final(self).valuation()[roots@[0]] == !old(self).valuation()[roots@[0]],
            forall|v: usize|
                v != roots@[0] ==> (#[trigger] final(self).valuation().contains_key(v) <==> old(
                    self,
                ).valuation().contains_key(v) && old(self).level_of(v) <= final(self).level()),
            forall|v: usize|
                v != roots@[0] && #[trigger] final(self).valuation().contains_key(v)
                    ==> final(self).valuation()[v] == old(self).valuation()[v],
            forall|v: int|
                0 <= v < old(self).n() && v != roots@[0] && (#[trigger] final(self).record(v)) is Some
                    ==> final(self).record(v) == old(self).record(v),
            forall|d: int| 0 <= d <= final(self).level() ==> final(self).node(d) == old(self).node(d),
            final(self).progress() > old(self).progress(),
            final(self).snapshot() == old(self).snapshot().jumped(roots@),
    {
        let ghost val = self.valuation();
        let ghost k_seq = self.forbids(roots@);
        let mut lits: Vec<Literal> = Vec::new();
        let mut t: usize = 0;
        while t < roots.len()
            invariant
                self.inv(),
                *self == *old(self),
                t <= roots@.len(),
                lits@ == k_seq.take(t as int),
                k_seq == self.forbids(roots@),
                forall|t: int| 0 <= t < roots@.len() ==> self.is_decision(#[trigger] roots@[t]),
            decreases roots@.len() - t,
        {
            let r = roots[t];
            assert(self.is_decision(roots@[t as int]));
            let a = self.record_at(r).unwrap();
            lits.push(Literal { value: !a.value, id: r });
            proof {
                assert(k_seq.take(t as int + 1) =~= k_seq.take(t as int).push(k_seq[t as int]));
            }
            t += 1;
        }
        proof {
            assert(k_seq.take(t as int) =~= k_seq);
            assert(clause_ok(k_seq, self.n())) by {
                assert forall|x: int, y: int| 0 <= x < k_seq.len() && 0 <= y < k_seq.len() && x != y implies k_seq[x]
                    != k_seq[y] by {
                    if x < y {
                        assert(self.level_of(roots@[x]) > self.level_of(roots@[y]));
                    } else {
                        assert(self.level_of(roots@[y]) > self.level_of(roots@[x]));
                    }
                }
                assert forall|j: int| 0 <= j < k_seq.len() implies (#[trigger] k_seq[j]).id < self.n() by {
                    assert(self.is_decision(roots@[j]));
                }
            }
            assert forall|m: Map<usize, bool>| total(m) && #[trigger] models(m, self.given@) implies clause_true(
                m,
                k_seq,
            ) by {
                assert(models(m, old(self).given()));
                assert(!self.agrees_on(m, roots@));
                let t = choose|t: int| 0 <= t < roots@.len() && m[#[trigger] roots@[t]] != val[roots@[t]];
                assert(m.contains_key(roots@[t]));
                assert(lit_true(m, k_seq[t]));
            }
        }
        let learned = Clause { literals: lits };
        let bound = self.ids.len();
        let top = roots[0];
        assert(self.is_decision(roots@[0]));
        let top_value = self.record_at(top).unwrap().value;
        let index = self.learn(learned);
        let ghost mid = *self;
        let b: usize = if roots.len() >= 2 {
            assert(self.is_decision(roots@[1]));
            self.record_at(roots[1]).unwrap().decision_level
        } else {
            0
        };
        proof {
            assert(mid.valuation() =~= val);
            assert(self.records()[top as int] is Some);
            assert(self.trail@.contains(top));
            let top_at = choose|p: int| 0 <= p < self.trail@.len() && self.trail@[p] == top;
            assert(self.entry(top_at).clause is None);
            assert(self.reasons_ok());
            assert(self.entry(top_at).decision_level >= 1);
            assert(self.entry(top_at).decision_level <= self.level());
            if roots@.len() >= 2 {
                assert(self.level_of(roots@[0]) > self.level_of(roots@[1]));
                assert(self.records()[roots@[1] as int] is Some);
                assert(self.trail@.contains(roots@[1]));
                let later_at = choose|p: int| 0 <= p < self.trail@.len() && self.trail@[p] == roots@[1];
                assert(self.entry(later_at).decision_level == b);
            }
            assert(b < self.entry(top_at).decision_level);
        }
        let cut = self.retreat(b);
        let ghost low = *self;
        let flipped = Literal { value: !top_value, id: top };
        proof {
            let c = self.clauses@[index as int]@;
            assert(c == k_seq);
            assert(c[0] == flipped);
            assert(!self.valuation().contains_key(top)) by {
                let top_at = choose|p: int| 0 <= p < mid.trail@.len() && mid.trail@[p] == top;
                assert(mid.entry(top_at).decision_level > b);
                if top_at < cut {
                    assert(mid.trail@[top_at] == top);
                }
                assert(self.records()[mid.trail@[top_at] as int] is None);
            }
            assert forall|j: int| 0 <= j < c.len() && #[trigger] c[j] != flipped implies lit_false(
                self.valuation(),
                c[j],
            ) by {
                assert(j >= 1);
                let r = roots@[j];
                assert(mid.is_decision(r));
                assert(mid.level_of(r) <= b) by {
                    if j > 1 {
                        assert(mid.level_of(roots@[1]) > mid.level_of(roots@[j]));
                    }
                }
                assert(mid.trail@.contains(r));
                let p = choose|p: int| 0 <= p < mid.trail@.len() && mid.trail@[p] == r;
                if p >= cut {
                    assert(mid.entry(p).decision_level > b);
                }
                assert(self.records()[mid.trail@[p] as int] == mid.records()[mid.trail@[p] as int]);
                assert(c[j] == Literal { value: !val[r], id: r });
            }
            assert(unit_in(self.valuation(), c, flipped));
            mid.lemma_mass_tail(cut as int, mid.trail@.len() as int, b as int);
            mid.lemma_weight(b as int, b as int + 1);
            let w = mid.weight(b as int + 1);
            let removed = mid.trail@.len() - cut;
            let n = mid.n() as int;
            assert(removed * w < (n + 1) * w) by (nonlinear_arith)
                requires
                    0 <= removed <= n,
                    w >= 1,
            ;
        }
        self.imply(flipped, index);
        proof {
            assert(formula(mid.clauses@) =~= formula(old(self).clauses@).push(k_seq));
            old(self).lemma_jumped(&mid, &low, self, roots@, cut as int, b, index, bound);
            let ghost was = old(self).valuation();
            assert forall|v: usize| v != roots@[0] implies (#[trigger] self.valuation().contains_key(v)
                <==> was.contains_key(v) && old(self).level_of(v) <= self.level()) && (
            self.valuation().contains_key(v) ==> self.valuation()[v] == was[v]) by {
                assert(self.valuation().contains_key(v) <==> low.valuation().contains_key(v));
                if mid.valuation().contains_key(v) {
                    assert(mid.records()[v as int] is Some);
                    assert(mid.trail@.contains(v));
                    let p = choose|p: int| 0 <= p < mid.trail@.len() && mid.trail@[p] == v;
                    assert(mid.level_of(v) == mid.entry(p).decision_level);
                    if p < cut {
                        assert(low.records()[mid.trail@[p] as int] == mid.records()[mid.trail@[p] as int]);
                    } else {
                        assert(low.records()[mid.trail@[p] as int] is None);
                    }
                } else if v < mid.records().len() {
                    assert(mid.records()[v as int] is None);
                    assert(low.records()[v as int] is None);
                }
            }
            assert(self.weight(b as int) == mid.weight(b as int));
            assert(self.valuation()[top] == flipped.value);
            assert(low.progress() == mid.mass_upto(cut as int));
            assert(mid.progress() == mid.mass_upto(mid.trail@.len() as int));
            assert(self.progress() == low.progress() + mid.weight(b as int));
        }
    }

    /// The verdict that is on record, if any.
    pub closed spec fn verdict(&self) -> Option<Res> {
        self.res
    }
}


/// Whether a literal with count `f1`, variable `id1` and polarity `later_at` comes
/// before, or is, one with `f2`, `id2`, `earlier_at`: by count, then by variable,
/// then negative before positive.
pub open spec fn ranked(f1: nat, id1: usize, later_at: bool, f2: nat, id2: usize, earlier_at: bool) -> bool {
    f1 < f2 || (f1 == f2 && (id1 < id2 || (id1 == id2 && (!later_at || earlier_at))))
}

impl CDCLSolver {
    /// In how many clauses, learned ones included, `l` occurs.
    pub closed spec fn frequency(&self, l: Literal) -> nat {
        occurrences(formula(self.clauses@), l)
    }

    /// `l` can be decided: its variable is unassigned and it occurs somewhere.
    pub open spec fn candidate(&self, l: Literal) -> bool {
        &&& l.id < self.n()
        &&& !self.valuation().contains_key(l.id)
        &&& self.frequency(l) > 0
    }

    /// Every variable has a value.
    pub open spec fn complete(&self) -> bool {
        forall|v: usize| v < self.n() ==> #[trigger] self.valuation().contains_key(v)
    }

    /// No clause has all its literals false.
    pub open spec fn quiet(&self) -> bool {
        forall|i: int|
            0 <= i < self.db().len() ==> !clause_false(self.valuation(), #[trigger] self.db()[i]@)
    }

    /// The decision heuristic: of the literals that can be decided, the one
    /// that occurs in the most clauses; among equals the one of the highest
    /// variable, and the positive one before the negative.
    pub fn get_next(&self) -> (r: Option<Literal>)
        requires
            self.inv(),
        ensures
            r == self.snapshot().best(),
            r is None <==> self.complete(),
            r matches Some(l) ==> self.candidate(l) && forall|o: Literal| #[trigger]
                self.candidate(o) ==> ranked(
                    self.frequency(o),
                    o.id,
                    o.value,
                    self.frequency(l),
                    l.id,
                    l.value,
                ),
    {
        let n = self.ids.len();
        let mut best: Option<Literal> = None;
        let mut best_count: usize = 0;
        let mut v: usize = 0;
        while v < n
            invariant
                self.inv(),
                n == self.n(),
                v <= n,
                best is None ==> forall|o: Literal| #[trigger] self.candidate(o) ==> o.id >= v,
                best matches Some(l) ==> self.candidate(l) && l.id < v && best_count == self.frequency(l)
                    && forall|o: Literal| #[trigger]
                    self.candidate(o) && o.id < v ==> ranked(
                        self.frequency(o),
                        o.id,
                        o.value,
                        self.frequency(l),
                        l.id,
                        l.value,
                    ),
            decreases n - v,
        {
            let ghost neg = Literal { value: false, id: v };
            let ghost pos = Literal { value: true, id: v };
            proof {
                assert(self.counts_ok());
                assert(self.negative@[v as int] == self.frequency(neg));
                assert(self.positive@[v as int] == self.frequency(pos));
                assert forall|o: Literal| o.id == v implies o == neg || o == pos by {}
            }
            if self.record_at(v).is_none() {
                assert(!self.valuation().contains_key(v));
                let count = self.negative[v];
                if count > 0 && (best.is_none() || count >= best_count) {
                    best = Some(Literal { value: false, id: v });
                    best_count = count;
                }
                let count = self.positive[v];
                if count > 0 && (best.is_none() || count >= best_count) {
                    best = Some(Literal { value: true, id: v });
                    best_count = count;
                }
            } else {
                assert(self.valuation().contains_key(v));
            }
            v += 1;
        }
        proof {
            if best is None {
                assert forall|w: usize| w < self.n() implies #[trigger] self.valuation().contains_key(w) by {
                    if !self.valuation().contains_key(w) {
                        assert(self.counts_ok());
                        assert(self.positive@[w as int] + self.negative@[w as int] >= 1);
                        let neg = Literal { value: false, id: w };
                        let pos = Literal { value: true, id: w };
                        assert(self.negative@[w as int] == self.frequency(neg));
                        assert(self.positive@[w as int] == self.frequency(pos));
                        assert(self.candidate(neg) || self.candidate(pos));
                    }
                }
            } else {
                let l = best->0;
                assert(self.candidate(l));
                assert(!self.valuation().contains_key(l.id));
            }
            let snap = self.snapshot();
            assert forall|o: Literal| #[trigger] snap.candidate(o) <==> self.candidate(o) by {
                if o.id < self.n() {
                    assert(self.valuation().contains_key(o.id) <==> self.records()[o.id as int] is Some);
                }
            }
            match best {
                Some(l) => {
                    assert(snap.leads(l)) by {
                        assert forall|o: Literal| #[trigger] snap.candidate(o) implies ranked(
                            occurrences(snap.db, o),
                            o.id,
                            o.value,
                            occurrences(snap.db, l),
                            l.id,
                            l.value,
                        ) by {
                            assert(self.candidate(o));
                        }
                    }
                    let other = choose|o: Literal| snap.leads(o);
                    assert(snap.candidate(other) && snap.candidate(l));
                    assert(other == l);
                },
                None => {
                    if exists|l: Literal| snap.leads(l) {
                        let l = choose|l: Literal| snap.leads(l);
                        assert(snap.candidate(l));
                        assert(self.candidate(l));
                        assert(!self.valuation().contains_key(l.id));
                    }
                },
            }
        }
        best
    }

    /// The current decision level.
    pub fn decision_level(&self) -> (level: usize)
        requires
            self.inv(),
        ensures
            level == self.level(),
    {
        self.decision_nodes.len() - 1
    }

    /// Whether every variable has a value.
    pub fn fully_assign(&self) -> (b: bool)
        requires
            self.inv(),
        ensures
            b == self.complete(),
    {
        let b = self.trail.len() == self.ids.len();
        proof {
            if b {
                assert forall|v: usize| v < self.n() implies #[trigger] self.valuation().contains_key(v) by {
                    if !self.trail@.contains(v) {
                        let longer = self.trail@.push(v);
                        assert forall|x: int, y: int|
                            0 <= x < longer.len() && 0 <= y < longer.len() && x != y implies longer[x]
                            != longer[y] by {
                            if x < self.trail@.len() && y < self.trail@.len() {
                                assert(longer[x] == self.trail@[x] && longer[y] == self.trail@[y]);
                            } else if x < self.trail@.len() {
                                assert(self.trail@.contains(self.trail@[x]));
                            } else {
                                assert(self.trail@.contains(self.trail@[y]));
                            }
                        }
                        assert forall|k: int| 0 <= k < longer.len() implies (#[trigger] longer[k]) < self.n() by {
                            if k < self.trail@.len() {
                                assert(longer[k] == self.trail@[k]);
                            }
                        }
                        lemma_pigeonhole(longer, self.n());
                    }
                    let k = choose|k: int| 0 <= k < self.trail@.len() && self.trail@[k] == v;
                    assert(self.records()[self.trail@[k] as int] is Some);
                }
            }
            if self.complete() {
                let n = self.n();
                let spots = Seq::new(n, |v: int| self.trail@.index_of(v as usize) as usize);
                assert forall|v: int| 0 <= v < n implies (#[trigger] spots[v]) < self.trail@.len()
                    && self.trail@[spots[v] as int] == v by {
                    assert(self.valuation().contains_key(v as usize));
                    assert(self.records()[v] is Some);
                    assert(self.trail@.contains(v as usize));
                    self.trail@.index_of_first_ensures(v as usize);
                }
                assert(spots.no_duplicates()) by {
                    assert forall|x: int, y: int| 0 <= x < n && 0 <= y < n && x != y implies spots[x]
                        != spots[y] by {
                        assert(self.trail@[spots[x] as int] == x);
                        assert(self.trail@[spots[y] as int] == y);
                    }
                }
                lemma_pigeonhole(spots, self.trail@.len());
            }
        }
        b
    }
}


impl CDCLSolver {
    /// Putting a verdict on record changes nothing else.
    proof fn lemma_recorded(&self, next: &CDCLSolver)
        requires
            self.inv(),
            next.same_search(self),
            next.clauses@ == self.clauses@,
            next.positive@ == self.positive@,
            next.negative@ == self.negative@,
            next.watcher == self.watcher,
        ensures
            next.inv(),
            next.valuation() == self.valuation(),
            next.progress() == self.progress(),
            next.level() == self.level(),
    {
        assert forall|i: int| 0 <= i < next.clauses@.len() implies clause_ok(
            #[trigger] next.clauses@[i]@,
            next.n(),
        ) by {}
        self.lemma_same_search(next);
        assert(next.learned_ok());
        assert(next.counts_ok());
    }

    /// Propagates, and resolves each conflict by learning and jumping back,
    /// until propagation ends without one. Returns `false` where a conflict
    /// has no decision behind it: the given database then has no model.
    fn settle(&mut self) -> (ok: bool)
        requires
            old(self).inv(),
        ensures
            final(self).inv(),
            final(self).given@ == old(self).given@,
            final(self).ids@ == old(self).ids@,
            final(self).forced@ == old(self).forced@,
            final(self).source@ == old(self).source@,
            final(self).res == old(self).res,
            old(self).clauses@.is_prefix_of(final(self).clauses@),
            final(self).progress() >= old(self).progress(),
            final(self).level() <= old(self).level(),
            ok ==> final(self).quiet(),
            !ok ==> !satisfiable(final(self).given@),
            (ok, final(self).snapshot()) == old(self).snapshot().settled(),
    {
        loop
            invariant
                self.inv(),
                self.snapshot().settled() == old(self).snapshot().settled(),
                self.given@ == old(self).given@,
                self.ids@ == old(self).ids@,
                self.forced@ == old(self).forced@,
                self.source@ == old(self).source@,
                self.res == old(self).res,
                old(self).clauses@.is_prefix_of(self.clauses@),
                self.progress() >= old(self).progress(),
                self.level() <= old(self).level(),
            decreases self.horizon() - self.progress(),
        {
            let level = self.decision_nodes.len() - 1;
            let ghost before = *self;
            match self.propagation(level) {
                None => {
                    proof {
                        self.lemma_grew_progress(&before);
                    }
                    return true;
                },
                Some(core) => {
                    proof {
                        self.lemma_grew_progress(&before);
                    }
                    let roots = self.collect_roots(core);
                    if roots.len() == 0 {
                        proof {
                            let g = self.given@;
                            if satisfiable(g) {
                                let m = choose|m: Map<usize, bool>| models(m, g);
                                crate::model::lemma_completion(m, g);
                                let t = crate::model::completion(m);
                                assert(models(t, self.given()));
                                assert(self.agrees_on(t, roots@));
                            }
                        }
                        return false;
                    }
                    let ghost found = *self;
                    self.backjump(&roots);
                    proof {
                        assert(self.horizon() == before.horizon());
                        self.lemma_progress_bound();
                        before.lemma_progress_snapshot();
                        found.lemma_progress_snapshot();
                        self.lemma_progress_snapshot();
                        assert(before.snapshot().advanced(self.snapshot()));
                    }
                },
            }
        }
    }

    /// Decides whether the given database can be satisfied.
    ///
    /// Where a verdict is on record already, it is returned. Otherwise the
    /// search runs: while a variable is unassigned, the heuristic's literal
    /// is decided at a new level, and propagation follows. A conflict is
    /// analysed down to the decisions behind it: if there are none, the
    /// database cannot be satisfied; else their negation is learned, the
    /// engine jumps back, and propagation goes on. When every variable has
    /// a value and no clause is false, the assignment is a model.
    pub fn solve(&mut self) -> (r: Res)
        requires
            old(self).inv(),
            old(self).verdict() is None ==> old(self).quiet(),
        ensures
            final(self).inv(),
            final(self).given() == old(self).given(),
            final(self).names() == old(self).names(),
            final(self).units() == old(self).units(),
            final(self).source() == old(self).source(),
            old(self).db().is_prefix_of(final(self).db()),
            final(self).verdict() == Some(r),
            old(self).verdict() matches Some(x) ==> r == x && final(self).db() == old(self).db()
                && final(self).valuation() == old(self).valuation() && final(self).level() == old(
                self,
            ).level(),
            old(self).verdict() is None ==> (r == Res::SAT <==> satisfiable(old(self).given())),
            old(self).verdict() is None ==> r == old(self).snapshot().searched().0,
            old(self).verdict() is None ==> final(self).snapshot() == old(self).snapshot().searched().1,
            old(self).verdict() is None && r == Res::SAT ==> final(self).complete() && models(
                final(self).valuation(),
                formula(final(self).db()),
            ) && models(final(self).valuation(), final(self).given()),
    {
        match self.res {
            Some(x) => {
                return x;
            },
            None => {},
        }
        loop
            invariant
                self.inv(),
                self.quiet(),
                self.res is None,
                old(self).res is None,
                self.given@ == old(self).given@,
                self.ids@ == old(self).ids@,
                self.forced@ == old(self).forced@,
                self.source@ == old(self).source@,
                old(self).clauses@.is_prefix_of(self.clauses@),
                self.snapshot().searched() == old(self).snapshot().searched(),
            decreases self.horizon() - self.progress(),
        {
            let ghost outer = *self;
            match self.get_next() {
                None => {
                    self.res = Some(Res::SAT);
                    proof {
                        outer.lemma_recorded(self);
                        let val = self.valuation();
                        let f = formula(self.clauses@);
                        assert forall|i: int| 0 <= i < f.len() implies clause_true(val, #[trigger] f[i]) by {
                            let c = self.clauses@[i]@;
                            assert(outer.db()[i]@ == c);
                            assert(!clause_false(val, c));
                            let j = choose|j: int| 0 <= j < c.len() && !lit_false(val, #[trigger] c[j]);
                            assert(clause_ok(self.clauses@[i]@, self.n()));
                            assert(c[j].id < self.n());
                            assert(val.contains_key(c[j].id));
                            assert(lit_true(val, c[j]));
                        }
                        assert forall|i: int| 0 <= i < self.given@.len() implies clause_true(
                            val,
                            #[trigger] self.given@[i],
                        ) by {
                            assert(self.given@[i] == self.clauses@[i]@);
                            assert(f[i] == self.clauses@[i]@);
                        }
                        assert(models(val, self.given@));
                    }
                    return Res::SAT;
                },
                Some(cur) => {
                    self.open_level(cur);
                    let ghost decided = *self;
                    if !self.settle() {
                        let ghost last = *self;
                        self.res = Some(Res::UNSAT);
                        proof {
                            last.lemma_recorded(self);
                        }
                        return Res::UNSAT;
                    }
                    proof {
                        assert(self.horizon() == outer.horizon());
                        self.lemma_progress_bound();
                        outer.lemma_progress_snapshot();
                        decided.lemma_progress_snapshot();
                        self.lemma_progress_snapshot();
                        assert(outer.snapshot().advanced(self.snapshot()));
                    }
                },
            }
        }
    }
}


/// What the preprocessor keeps of the database `f` for the search: what
/// unit propagation leaves, minimized, and nothing where unit propagation
/// gives a verdict.
pub open spec fn kept_by(f: Seq<Seq<Literal>>) -> Seq<Seq<Literal>> {
    let run = unit_run(f, Map::empty());
    if run.0 is None {
        minimized_db(run.1)
    } else {
        Seq::empty()
    }
}

/// A variable that occurs is counted.
proof fn lemma_occurs_counted(f: Seq<Seq<Literal>>, v: usize)
    requires
        occurs(f, v),
    ensures
        occurrences(f, Literal { value: true, id: v }) + occurrences(f, Literal { value: false, id: v })
            >= 1,
    decreases f.len(),
{
    let (i, j) = choose|i: int, j: int|
        0 <= i < f.len() && 0 <= j < f[i].len() && (#[trigger] f[i][j]).id == v;
    if i == f.len() - 1 {
        let l = f[i][j];
        assert(f.last().contains(l));
        assert(l == Literal { value: true, id: v } || l == Literal { value: false, id: v });
    } else {
        assert(f.drop_last()[i][j].id == v);
        lemma_occurs_counted(f.drop_last(), v);
    }
}

impl CDCLSolver {
    /// The engine was made from `source()` by the preprocessor: the forced
    /// literals are those that unit propagation recorded, and where it gave
    /// no verdict the given database is what it left, minimized and renamed,
    /// with the identifiers that occur in it in ascending order.
    pub open spec fn prepared(&self) -> bool {
        let run = unit_run(self.source(), Map::empty());
        &&& lists(self.units(), run.2)
        &&& ascending(self.names())
        &&& run.0 is None ==> renamed(self.names(), minimized_db(run.1), self.given())
        &&& run.0 is None ==> forall|id: usize|
            self.names().contains(id) <==> #[trigger] occurs(minimized_db(run.1), id)
        &&& run.0 is Some ==> self.given().len() == 0 && self.names().len() == 0
    }

    /// The engine for the clauses `clauses` over the variables `0 .. ids.len()`.
    fn assemble(
        ids: Vec<usize>,
        clauses: Vec<Clause>,
        res: Option<Res>,
        forced: Vec<Literal>,
        Ghost(source): Ghost<Seq<Seq<Literal>>>,
    ) -> (s: CDCLSolver)
        requires
            ascending(ids@),
            forall|i: int| 0 <= i < clauses@.len() ==> clause_ok(#[trigger] clauses@[i]@, ids@.len()),
            forall|v: usize| v < ids@.len() ==> occurs(formula(clauses@), v),
        ensures
            s.inv(),
            s.quiet(),
            s.level() == 0,
            s.trail().len() == 0,
            s.names() == ids@,
            s.db() == clauses@,
            s.given() == formula(clauses@),
            s.verdict() == res,
            s.units() == forced@,
            s.source() == source,
            s.names().len() <= usize::MAX,
            s.snapshot() == initial(formula(clauses@), ids@.len()),
    {
        let n = ids.len();
        let ghost f = formula(clauses@);
        let assignments: HashMap<usize, Assignment> = HashMap::new();
        let mut positive: Vec<usize> = Vec::new();
        let mut negative: Vec<usize> = Vec::new();
        let mut v: usize = 0;
        while v < n
            invariant
                v <= n,
                positive@.len() == v,
                negative@.len() == v,
                forall|w: int| 0 <= w < v ==> (#[trigger] positive@[w]) == 0,
                forall|w: int| 0 <= w < v ==> (#[trigger] negative@[w]) == 0,
            decreases n - v,
        {
            positive.push(0);
            negative.push(0);
            v += 1;
        }
        let total_clauses = clauses.len();
        let mut i: usize = 0;
        while i < total_clauses
            invariant
                i <= total_clauses,
                total_clauses == clauses@.len(),
                f == formula(clauses@),
                n == ids@.len(),
                positive@.len() == n,
                negative@.len() == n,
                forall|i: int| 0 <= i < clauses@.len() ==> clause_ok(#[trigger] clauses@[i]@, ids@.len()),
                forall|w: usize|
                    w < n ==> (#[trigger] positive@[w as int]) == occurrences(
                        f.take(i as int),
                        Literal { value: true, id: w },
                    ),
                forall|w: usize|
                    w < n ==> (#[trigger] negative@[w as int]) == occurrences(
                        f.take(i as int),
                        Literal { value: false, id: w },
                    ),
            decreases total_clauses - i,
        {
            assert(clause_ok(clauses@[i as int]@, ids@.len()));
            count_clause(&mut positive, &mut negative, &clauses[i], Ghost(f.take(i as int)));
            proof {
                assert(f.take(i as int).push(clauses@[i as int]@) =~= f.take(i as int + 1));
            }
            i += 1;
        }
        let watcher = watch_map(&clauses);
        let mut decision_nodes: Vec<usize> = Vec::new();
        decision_nodes.push(0);
        let s = CDCLSolver {
            ids,
            clauses,
            assignments,
            trail: Vec::new(),
            decision_nodes,
            positive,
            negative,
            res,
            watcher,
            forced,
            given: Ghost(f),
            source: Ghost(source),
        };
        proof {
            assert(f.take(i as int) =~= f);
            reveal(records_of);
            assert(s.snapshot().records =~= initial(f, s.ids@.len()).records);
            assert(s.snapshot().nodes =~= initial(f, s.ids@.len()).nodes);
            assert(s.shape_ok());
            assert(s.trail_ok());
            assert(s.levels_ok());
            assert(s.reasons_ok());
            assert(s.learned_ok());
            assert(s.counts_ok()) by {
                assert forall|w: usize| w < s.n() implies (#[trigger] s.positive@[w as int])
                    + s.negative@[w as int] >= 1 by {
                    lemma_occurs_counted(f, w);
                }
            }
            assert forall|i: int| 0 <= i < s.db().len() implies !clause_false(
                s.valuation(),
                #[trigger] s.db()[i]@,
            ) by {
                let c = s.db()[i]@;
                assert(clause_ok(s.clauses@[i]@, s.n()));
                assert(!lit_false(s.valuation(), c[0]));
            }
        }
        s
    }

    /// Prepares the search for `clauses`: runs the unit propagation of the
    /// preprocessor and, unless that gives a verdict, self-subsuming
    /// resolution; renames what is left into a dense range; and counts the
    /// literals.
    #[verifier::rlimit(40)]
    pub fn new(clauses: Vec<Clause>) -> (s: CDCLSolver)
        requires
            well_formed(clauses@),
        ensures
            s.inv(),
            s.source() == formula(clauses@),
            s.prepared(),
            s.verdict() == unit_run(formula(clauses@), Map::empty()).0,
            s.verdict() is None ==> s.quiet(),
            s.level() == 0,
            s.trail().len() == 0,
            s.given() == formula(s.db()),
            s.names().len() <= usize::MAX,
            s.snapshot() == initial(s.given(), s.names().len()),
            s.units() == unit_log(formula(clauses@), Map::empty(), Seq::empty()),
            s.names() == ids_of(kept_by(formula(clauses@))),
            s.given() == dense(s.names(), kept_by(formula(clauses@))),
    {
        let ghost source = formula(clauses@);
        let (res, left, forced) = propagate_units(clauses);
        let ghost run = unit_run(source, Map::empty());
        let left = if res.is_none() {
            let watch_list = watch_map(&left);
            minimize_cur_clauses(left.as_slice(), &watch_list)
        } else {
            left
        };
        let ghost kept = formula(left@);
        proof {
            if res is None {
                crate::preprocess::lemma_minimized_upto(run.1, run.1.len() as int);
                assert(kept == minimized_upto(run.1, run.1.len() as int));
            } else {
                crate::preprocess::lemma_unit_run_verdict(source, Map::empty());
            }
            assert(kept =~= kept_by(source));
            assert forall|i: int| 0 <= i < kept.len() implies (#[trigger] kept[i]).len() > 0 by {}
        }
        let (ids, out) = rename(left);
        proof {
            let g = formula(out@);
            if res is None {
                assert forall|id: usize| ids@.contains(id) <==> #[trigger] occurs(
                    minimized_db(run.1),
                    id,
                ) by {
                    assert(ids@.contains(id) <==> occurs(kept, id));
                }
            } else {
                if ids@.len() > 0 {
                    assert(ids@.contains(ids@[0]));
                    assert(occurs(kept, ids@[0]));
                }
            }
            assert forall|a: int, b: int| 0 <= a < ids@.len() && 0 <= b < ids@.len() && a != b implies ids@[a]
                != ids@[b] by {
                if a < b {
                    assert(ids@[a] < ids@[b]);
                } else {
                    assert(ids@[b] < ids@[a]);
                }
            }
            assert forall|i: int| 0 <= i < out@.len() implies clause_ok(
                #[trigger] out@[i]@,
                ids@.len(),
            ) by {
                assert(g[i] == out@[i]@);
                assert(crate::solver::restored(ids@, g[i]) == kept[i]);
                assert(kept[i].len() > 0);
                assert(left@[i].wf());
                assert forall|j: int| 0 <= j < out@[i]@.len() implies (#[trigger] out@[i]@[j]).id
                    < ids@.len() by {
                    assert(g[i][j].id < ids@.len());
                }
            }
            assert forall|v: usize| v < ids@.len() implies occurs(g, v) by {
                assert(ids@.contains(ids@[v as int]));
                assert(occurs(kept, ids@[v as int]));
                let (i, j) = choose|i: int, j: int|
                    0 <= i < kept.len() && 0 <= j < kept[i].len() && (#[trigger] kept[i][j]).id
                        == ids@[v as int];
                assert(crate::solver::restored(ids@, g[i]) == kept[i]);
                assert(crate::solver::restored(ids@, g[i])[j] == kept[i][j]);
                assert(g[i][j].id < ids@.len());
                assert(ids@[g[i][j].id as int] == ids@[v as int]);
                assert(g[i][j].id == v);
            }
        }
        CDCLSolver::assemble(ids, out, res, forced, Ghost(source))
    }

    /// The first `k` variables that have a value, each as its identifier
    /// with that value.
    pub open spec fn assigned_pairs(&self, k: int) -> Seq<(usize, bool)>
        decreases k,
    {
        if k <= 0 {
            Seq::empty()
        } else if self.valuation().contains_key((k - 1) as usize) {
            self.assigned_pairs(k - 1).push(
                (self.names()[k - 1], self.valuation()[(k - 1) as usize]),
            )
        } else {
            self.assigned_pairs(k - 1)
        }
    }

    /// The model as it is reported: the assigned variables in ascending
    /// order, then the literals that the preprocessor forced, each as an
    /// identifier of the source database with its value.
    pub open spec fn report(&self) -> Seq<(usize, bool)> {
        self.assigned_pairs(self.names().len() as int) + Seq::new(
            self.units().len(),
            |k: int| (self.units()[k].id, self.units()[k].value),
        )
    }

    /// The reported model. After `solve` has returned `SAT` it gives every
    /// variable of the search a value.
    pub fn get_assignments(&self) -> (r: Vec<(usize, bool)>)
        requires
            self.inv(),
        ensures
            r@ == self.report(),
            r@ == model_of(self.names(), self.snapshot(), self.units()),
    {
        let mut r: Vec<(usize, bool)> = Vec::new();
        let n = self.ids.len();
        let mut v: usize = 0;
        while v < n
            invariant
                self.inv(),
                n == self.n(),
                v <= n,
                r@ == self.assigned_pairs(v as int),
            decreases n - v,
        {
            match self.record_at(v) {
                Some(a) => {
                    assert(self.valuation().contains_key(v));
                    r.push((self.ids[v], a.value));
                },
                None => {
                    assert(!self.valuation().contains_key(v));
                },
            }
            v += 1;
        }
        let ghost engine = r@;
        let mut k: usize = 0;
        while k < self.forced.len()
            invariant
                k <= self.forced@.len(),
                r@ == engine + Seq::new(
                    k as nat,
                    |t: int| (self.forced@[t].id, self.forced@[t].value),
                ),
            decreases self.forced@.len() - k,
        {
            let l = self.forced[k];
            r.push((l.id, l.value));
            proof {
                assert(r@ =~= engine + Seq::new(
                    (k + 1) as nat,
                    |t: int| (self.forced@[t].id, self.forced@[t].value),
                ));
            }
            k += 1;
        }
        proof {
            assert(r@ =~= self.report());
            self.lemma_snapshot();
            self.lemma_pairs(self.ids@.len() as int);
            assert(literal_pairs(self.forced@) =~= Seq::new(
                self.units().len(),
                |k: int| (self.units()[k].id, self.units()[k].value),
            ));
        }
        r
    }

    /// The pairs of the assigned variables are those of the snapshot.
    proof fn lemma_pairs(&self, k: int)
        ensures
            self.assigned_pairs(k) == pairs(self.names(), self.valuation(), k),
        decreases k,
    {
        if k > 0 {
            self.lemma_pairs(k - 1);
        }
    }
}


/// The verdict of the preprocessor and the search on the database `f`:
/// that of unit propagation where it gives one, and else whether what it
/// leaves can, after self-subsuming resolution, be satisfied.
pub open spec fn checked(f: Seq<Seq<Literal>>) -> Res {
    let run = unit_run(f, Map::empty());
    if run.0 is Some {
        Res::UNSAT
    } else if satisfiable(minimized_db(run.1)) {
        Res::SAT
    } else {
        Res::UNSAT
    }
}

/// What `check` returns on the database `f`: the verdict and the reported
/// model. Where unit propagation gives a verdict, the model holds what it
/// recorded; otherwise the search runs on what the preprocessor keeps,
/// renamed, and the model is that of its end, with what unit propagation
/// recorded after it.
pub open spec fn check_result(f: Seq<Seq<Literal>>) -> (Res, Seq<(usize, bool)>) {
    let units = unit_log(f, Map::empty(), Seq::empty());
    if unit_run(f, Map::empty()).0 is Some {
        (Res::UNSAT, literal_pairs(units))
    } else {
        let ids = ids_of(kept_by(f));
        let end = initial(dense(ids, kept_by(f)), ids.len()).searched();
        (end.0, model_of(ids, end.1, units))
    }
}

/// Preprocesses and searches: the verdict on `clauses`, and the reported
/// model. With `SAT` the model gives every clause that is not lost in
/// preprocessing a literal with its polarity: every clause, where
/// self-subsuming resolution left every clause with a literal.
pub fn check(clauses: Vec<Clause>) -> (r: (Res, Vec<(usize, bool)>))
    requires
        well_formed(clauses@),
    ensures
        r.0 == checked(formula(clauses@)),
        r.0 == Res::SAT ==> forall|i: int|
            0 <= i < clauses@.len() && outlives(formula(clauses@), i) ==> reported_true(
                #[trigger] formula(clauses@)[i],
                r.1@,
            ),
        r.0 == Res::SAT && spares(unit_run(formula(clauses@), Map::empty()).1) ==> satisfied_by(
            formula(clauses@),
            r.1@,
        ),
        r.0 == check_result(formula(clauses@)).0,
        r.1@ == check_result(formula(clauses@)).1,
{
    let ghost f = formula(clauses@);
    let mut solver = CDCLSolver::new(clauses);
    let ghost begun = solver;
    let ghost run = unit_run(f, Map::empty());
    proof {
        crate::preprocess::lemma_unit_run_verdict(f, Map::empty());
        if run.0 is None {
            crate::solver::lemma_renamed_satisfiable(solver.names(), minimized_db(run.1), solver.given());
        }
    }
    let res = solver.solve();
    let model = solver.get_assignments();
    proof {
        if res == Res::SAT {
            assert forall|i: int| 0 <= i < f.len() && outlives(f, i) implies reported_true(
                #[trigger] f[i],
                model@,
            ) by {
                solver.lemma_report_satisfies(i);
            }
            if spares(run.1) {
                assert forall|i: int| 0 <= i < f.len() implies reported_true(#[trigger] f[i], model@) by {
                    lemma_spares_outlives(f, i);
                }
            }
        }
        if run.0 is Some {
            solver.lemma_snapshot();
            assert(pairs(solver.names(), solver.snapshot().valuation(), 0) =~= Seq::empty());
            assert(model@ =~= literal_pairs(solver.units()));
        }
    }
    (res, model)
}


/// The verdict of `check` is right where the two rules of the preprocessor
/// that can lose satisfiability do not apply: it is `SAT` exactly if the
/// database can be satisfied.
pub proof fn lemma_checked(f: Seq<Seq<Literal>>)
    requires
        !meets_pair(f, Map::empty()),
        unit_run(f, Map::empty()).0 is None ==> gentle(unit_run(f, Map::empty()).1),
    ensures
        checked(f) == Res::SAT <==> satisfiable(f),
{
    lemma_preprocessing_preserves(f);
    crate::preprocess::lemma_unit_run_verdict(f, Map::empty());
}

impl CDCLSolver {
    /// The pair of an assigned variable's identifier and its value is
    /// among the pairs of the assigned variables.
    proof fn lemma_assigned_pairs(&self, k: int, v: int)
        requires
            0 <= v < k,
            self.valuation().contains_key(v as usize),
        ensures
            self.assigned_pairs(k).contains((self.names()[v], self.valuation()[v as usize])),
        decreases k,
    {
        let now = self.assigned_pairs(k);
        if v == k - 1 {
            assert(now[now.len() - 1] == (self.names()[v], self.valuation()[v as usize]));
        } else {
            self.lemma_assigned_pairs(k - 1, v);
            let rest = self.assigned_pairs(k - 1);
            let e = (self.names()[v], self.valuation()[v as usize]);
            let t = choose|t: int| 0 <= t < rest.len() && rest[t] == e;
            assert(now[t] == e);
        }
    }

    /// The reported model satisfies each clause of the source database
    /// that is not lost in preprocessing. After a search that ended with
    /// every variable assigned and the given database satisfied, such a
    /// clause of the database that the engine was made from has a literal
    /// that is reported with its polarity.
    #[verifier::rlimit(40)]
    pub proof fn lemma_report_satisfies(&self, i: int)
        requires
            self.inv(),
            self.prepared(),
            self.names().len() <= usize::MAX,
            unit_run(self.source(), Map::empty()).0 is None,
            0 <= i < self.source().len(),
            outlives(self.source(), i),
            self.complete(),
            models(self.valuation(), self.given()),
        ensures
            exists|j: int|
                0 <= j < self.source()[i].len() && self.report().contains(
                    ((#[trigger] self.source()[i][j]).id, self.source()[i][j].value),
                ),
    {
        let none = Map::<usize, bool>::empty();
        let source = self.source();
        let run = unit_run(source, none);
        let g = run.1;
        let a2 = run.2;
        let md = minimized_db(g);
        let ids = self.names();
        let val = self.valuation();
        crate::solver::lemma_renamed_models(ids, md, self.given(), val);
        let back = model_back(ids, val);
        let both = back.union_prefer_right(a2);
        lemma_unit_run_untouched(source, none);
        crate::preprocess::lemma_minimized_upto(g, g.len() as int);
        let c = source[i];
        assert(clause_true(both, c)) by {
            if clause_true(a2, c) {
                let j = choose|j: int| 0 <= j < c.len() && lit_true(a2, #[trigger] c[j]);
                assert(lit_true(both, c[j]));
            } else {
                let k = choose|k: int| 0 <= k < md.len() && crate::theorems::covers(c, #[trigger] md[k]);
                let ci = choose|ci: int| 0 <= ci < g.len() && #[trigger] minimized(g, ci) == md[k];
                assert(clause_true(back, md[k]));
                let t = choose|t: int| 0 <= t < md[k].len() && lit_true(back, #[trigger] md[k][t]);
                let x = md[k][t];
                crate::preprocess::lemma_struck(g, ci, g[ci].len() as int);
                assert(g[ci].take(g[ci].len() as int) =~= g[ci]);
                assert(minimized(g, ci).contains(x));
                assert(g[ci].contains(x));
                let at = choose|at: int| 0 <= at < g[ci].len() && g[ci][at] == x;
                assert(!a2.contains_key(g[ci][at].id));
                assert(lit_true(both, x));
                assert(c.contains(x));
                let j = choose|j: int| 0 <= j < c.len() && c[j] == x;
                assert(lit_true(both, c[j]));
            }
        }
        let j = choose|j: int| 0 <= j < c.len() && lit_true(both, #[trigger] c[j]);
        let l = c[j];
        let pair = (l.id, l.value);
        let first = self.assigned_pairs(ids.len() as int);
        let second = Seq::new(self.units().len(), |k: int| (self.units()[k].id, self.units()[k].value));
        if a2.contains_key(l.id) {
            let k = choose|k: int| 0 <= k < self.units().len() && (#[trigger] self.units()[k]).id == l.id;
            assert(lit_true(a2, self.units()[k]));
            assert(second[k] == pair);
            assert(self.report()[first.len() + k] == pair);
        } else {
            assert(back.contains_key(l.id));
            let v = choose|v: int| 0 <= v < ids.len() && ids[v] == l.id && val.contains_key(v as usize);
            assert forall|x: int, y: int| 0 <= x < ids.len() && 0 <= y < ids.len() && x != y implies ids[x]
                != ids[y] by {
                if x < y {
                    assert(ids[x] < ids[y]);
                } else {
                    assert(ids[y] < ids[x]);
                }
            }
            ids.index_of_first_ensures(l.id);
            assert(ids.contains(l.id));
            assert(ids.index_of(l.id) == v);
            self.lemma_assigned_pairs(ids.len() as int, v);
            let t = choose|t: int| 0 <= t < first.len() && first[t] == pair;
            assert(self.report()[t] == pair);
        }
    }
}


/// Some clause of `f` is empty.
pub open spec fn has_empty(f: Seq<Seq<Literal>>) -> bool {
    exists|i: int| 0 <= i < f.len() && (#[trigger] f[i]).len() == 0
}

impl CDCLSolver {
    /// The engine for `clauses` as they are, without preprocessing: the
    /// variables are renamed into a dense range and the literals counted.
    /// An empty clause among them gives the verdict at once.
    #[verifier::rlimit(40)]
    pub fn unprocessed(clauses: Vec<Clause>) -> (s: CDCLSolver)
        requires
            well_formed(clauses@),
        ensures
            s.inv(),
            s.source() == formula(clauses@),
            s.units().len() == 0,
            s.verdict() == if has_empty(formula(clauses@)) {
                Some(Res::UNSAT)
            } else {
                None::<Res>
            },
            s.verdict() is None ==> s.quiet() && renamed(s.names(), s.source(), s.given()),
            s.verdict() is None ==> ascending(s.names()) && forall|id: usize|
                s.names().contains(id) <==> #[trigger] occurs(s.source(), id),
            s.level() == 0,
            s.trail().len() == 0,
            s.given() == formula(s.db()),
            s.names().len() <= usize::MAX,
            s.snapshot() == initial(s.given(), s.names().len()),
            s.verdict() is None ==> s.names() == ids_of(s.source()) && s.given() == dense(
                s.names(),
                s.source(),
            ),
            s.verdict() is Some ==> s.names().len() == 0,
    {
        let ghost source = formula(clauses@);
        let mut i: usize = 0;
        while i < clauses.len()
            invariant
                i <= clauses@.len(),
                source == formula(clauses@),
                !has_empty(source.take(i as int)),
            decreases clauses@.len() - i,
        {
            if clauses[i].is_empty() {
                proof {
                    assert(source[i as int].len() == 0);
                }
                return CDCLSolver::assemble(
                    Vec::new(),
                    Vec::new(),
                    Some(Res::UNSAT),
                    Vec::new(),
                    Ghost(source),
                );
            }
            proof {
                if has_empty(source.take(i as int + 1)) {
                    let k = choose|k: int|
                        0 <= k < source.take(i as int + 1).len() && (#[trigger] source.take(i as int + 1)[k]).len()
                            == 0;
                    if k < i {
                        assert(source.take(i as int)[k].len() == 0);
                    }
                }
            }
            i += 1;
        }
        proof {
            assert(source.take(i as int) =~= source);
        }
        let (ids, out) = rename(clauses);
        proof {
            let g = formula(out@);
            assert forall|a: int, b: int| 0 <= a < ids@.len() && 0 <= b < ids@.len() && a != b implies ids@[a]
                != ids@[b] by {
                if a < b {
                    assert(ids@[a] < ids@[b]);
                } else {
                    assert(ids@[b] < ids@[a]);
                }
            }
            assert forall|i: int| 0 <= i < out@.len() implies clause_ok(
                #[trigger] out@[i]@,
                ids@.len(),
            ) by {
                assert(g[i] == out@[i]@);
                assert(crate::solver::restored(ids@, g[i]) == source[i]);
                assert(source[i].len() > 0);
                assert(clauses@[i].wf());
                assert forall|j: int| 0 <= j < out@[i]@.len() implies (#[trigger] out@[i]@[j]).id
                    < ids@.len() by {
                    assert(g[i][j].id < ids@.len());
                }
            }
            assert forall|v: usize| v < ids@.len() implies occurs(g, v) by {
                assert(ids@.contains(ids@[v as int]));
                assert(occurs(source, ids@[v as int]));
                let (i, j) = choose|i: int, j: int|
                    0 <= i < source.len() && 0 <= j < source[i].len() && (#[trigger] source[i][j]).id
                        == ids@[v as int];
                assert(crate::solver::restored(ids@, g[i]) == source[i]);
                assert(crate::solver::restored(ids@, g[i])[j] == source[i][j]);
                assert(g[i][j].id < ids@.len());
                assert(ids@[g[i][j].id as int] == ids@[v as int]);
                assert(g[i][j].id == v);
            }
        }
        CDCLSolver::assemble(ids, out, None, Vec::new(), Ghost(source))
    }

    /// After a search without preprocessing that ended with every variable
    /// assigned and the given database satisfied, every clause of the source
    /// database has a literal that is reported with its polarity.
    pub proof fn lemma_report_satisfies_unprocessed(&self, i: int)
        requires
            self.inv(),
            self.names().len() <= usize::MAX,
            renamed(self.names(), self.source(), self.given()),
            self.complete(),
            models(self.valuation(), self.given()),
            0 <= i < self.source().len(),
        ensures
            exists|j: int|
                0 <= j < self.source()[i].len() && self.report().contains(
                    ((#[trigger] self.source()[i][j]).id, self.source()[i][j].value),
                ),
    {
        let source = self.source();
        let ids = self.names();
        let val = self.valuation();
        crate::solver::lemma_renamed_models(ids, source, self.given(), val);
        let back = model_back(ids, val);
        let c = source[i];
        assert(clause_true(back, c));
        let j = choose|j: int| 0 <= j < c.len() && lit_true(back, #[trigger] c[j]);
        let l = c[j];
        let pair = (l.id, l.value);
        let first = self.assigned_pairs(ids.len() as int);
        let v = choose|v: int| 0 <= v < ids.len() && ids[v] == l.id && val.contains_key(v as usize);
        assert forall|x: int, y: int| 0 <= x < ids.len() && 0 <= y < ids.len() && x != y implies ids[x]
            != ids[y] by {
            if x < y {
                assert(ids[x] < ids[y]);
            } else {
                assert(ids[y] < ids[x]);
            }
        }
        ids.index_of_first_ensures(l.id);
        assert(ids.contains(l.id));
        assert(ids.index_of(l.id) == v);
        self.lemma_assigned_pairs(ids.len() as int, v);
        let t = choose|t: int| 0 <= t < first.len() && first[t] == pair;
        assert(self.report()[t] == pair);
    }
}

/// Some literal of `c` is among the pairs of `model`: its variable with
/// its polarity.
pub open spec fn reported_true(c: Seq<Literal>, model: Seq<(usize, bool)>) -> bool {
    exists|j: int| 0 <= j < c.len() && model.contains(((#[trigger] c[j]).id, c[j].value))
}

/// Every clause of `f` has a literal among the pairs of `model`.
pub open spec fn satisfied_by(f: Seq<Seq<Literal>>, model: Seq<(usize, bool)>) -> bool {
    forall|i: int| 0 <= i < f.len() ==> reported_true(#[trigger] f[i], model)
}

/// What `search` returns on the database `f`: the verdict and the model of
/// the search on `f`, renamed; and without a search where a clause is
/// empty.
pub open spec fn search_result(f: Seq<Seq<Literal>>) -> (Res, Seq<(usize, bool)>) {
    if has_empty(f) {
        (Res::UNSAT, Seq::empty())
    } else {
        let ids = ids_of(f);
        let end = initial(dense(ids, f), ids.len()).searched();
        (end.0, model_of(ids, end.1, Seq::empty()))
    }
}

/// Decides `clauses` by the search alone. The verdict is `SAT` exactly if
/// the clauses can be satisfied, and the model that comes with `SAT` gives
/// every clause a literal with its polarity.
pub fn search(clauses: Vec<Clause>) -> (r: (Res, Vec<(usize, bool)>))
    requires
        well_formed(clauses@),
    ensures
        r.0 == Res::SAT <==> satisfiable(formula(clauses@)),
        r.0 == Res::SAT ==> satisfied_by(formula(clauses@), r.1@),
        r.0 == search_result(formula(clauses@)).0,
        r.1@ == search_result(formula(clauses@)).1,
{
    let ghost f = formula(clauses@);
    let mut solver = CDCLSolver::unprocessed(clauses);
    let ghost before = solver;
    let res = solver.solve();
    let model = solver.get_assignments();
    proof {
        if before.verdict() is None {
            crate::solver::lemma_renamed_satisfiable(solver.names(), f, solver.given());
            if res == Res::SAT {
                assert forall|i: int| 0 <= i < f.len() implies reported_true(#[trigger] f[i], model@) by {
                    solver.lemma_report_satisfies_unprocessed(i);
                }
            }
        } else {
            let k = choose|k: int| 0 <= k < f.len() && (#[trigger] f[k]).len() == 0;
            if satisfiable(f) {
                let m = choose|m: Map<usize, bool>| models(m, f);
                assert(clause_true(m, f[k]));
            }
            solver.lemma_snapshot();
            assert(pairs(solver.names(), solver.snapshot().valuation(), 0) =~= Seq::empty());
            assert(literal_pairs(solver.units()) =~= Seq::empty());
            assert(model@ =~= Seq::empty());
        }
        assert(literal_pairs(Seq::<Literal>::empty()) =~= Seq::empty());
    }
    (res, model)
}

} // verus!
