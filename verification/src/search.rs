//! The search as a function: what each step of the engine makes of a
//! state, and what the search as a whole makes of it.

use vstd::prelude::*;
use crate::assertion_set::Literal;
use crate::cdcl::{occurrences, power, ranked, Assignment};
use crate::model::{clause_false, unit_in};
use crate::solver::Res;

verus! {

/// The state of a search.
pub struct Snapshot {
    /// The clauses: those given, then those learned.
    pub db: Seq<Seq<Literal>>,
    /// The record of each variable, where it is assigned.
    pub records: Seq<Option<Assignment>>,
    /// The assigned variables, in the order in which they were assigned.
    pub trail: Seq<usize>,
    /// The variable that was decided at each level, after a first place
    /// that stands for level zero.
    pub nodes: Seq<usize>,
}

impl Snapshot {
    /// The current decision level.
    pub open spec fn level(self) -> int {
        self.nodes.len() - 1
    }

    /// The current partial assignment.
    pub open spec fn valuation(self) -> Map<usize, bool> {
        Map::new(
            |v: usize| v < self.records.len() && self.records[v as int] is Some,
            |v: usize| (self.records[v as int]->0).value,
        )
    }

    /// The record of the `k`-th variable of the trail.
    pub open spec fn entry(self, k: int) -> Assignment {
        self.records[self.trail[k] as int]->0
    }

    /// `l` can be decided: its variable is unassigned and it occurs.
    pub open spec fn candidate(self, l: Literal) -> bool {
        &&& l.id < self.records.len()
        &&& self.records[l.id as int] is None
        &&& occurrences(self.db, l) > 0
    }

    /// `l` is the candidate of the highest rank.
    pub open spec fn leads(self, l: Literal) -> bool {
        &&& self.candidate(l)
        &&& forall|o: Literal| #[trigger]
            self.candidate(o) ==> ranked(
                occurrences(self.db, o),
                o.id,
                o.value,
                occurrences(self.db, l),
                l.id,
                l.value,
            )
    }

    /// The literal that the heuristic picks, if any variable is unassigned.
    pub open spec fn best(self) -> Option<Literal> {
        if exists|l: Literal| self.leads(l) {
            Some(choose|l: Literal| self.leads(l))
        } else {
            None
        }
    }

    /// The state after `l` was decided at a new level.
    pub open spec fn decided(self, l: Literal) -> Snapshot {
        Snapshot {
            db: self.db,
            records: self.records.update(
                l.id as int,
                Some(
                    Assignment {
                        value: l.value,
                        clause: None,
                        decision_level: self.nodes.len() as usize,
                    },
                ),
            ),
            trail: self.trail.push(l.id),
            nodes: self.nodes.push(l.id),
        }
    }

    /// The state after clause `c` forced `l` at the current level.
    pub open spec fn implied(self, l: Literal, c: usize) -> Snapshot {
        Snapshot {
            db: self.db,
            records: self.records.update(
                l.id as int,
                Some(
                    Assignment {
                        value: l.value,
                        clause: Some(c),
                        decision_level: self.level() as usize,
                    },
                ),
            ),
            trail: self.trail.push(l.id),
            nodes: self.nodes,
        }
    }

    /// The state after the first `k` of `units` were taken in their order:
    /// each literal whose variable was still unassigned got assigned.
    pub open spec fn applied(self, units: Seq<(Literal, usize)>, k: int) -> Snapshot
        decreases k,
    {
        if k <= 0 || k > units.len() {
            self
        } else {
            let before = self.applied(units, k - 1);
            let l = units[k - 1].0;
            if l.id < before.records.len() && before.records[l.id as int] is None {
                before.implied(l, units[k - 1].1)
            } else {
                before
            }
        }
    }

    /// The state after one scan of the clauses: every literal that a clause
    /// forced at the beginning of the scan is assigned, the first of two on
    /// one variable only.
    pub open spec fn swept(self) -> Snapshot {
        let units = units_upto(self.valuation(), self.db, self.db.len() as int);
        self.applied(units, units.len() as int)
    }

    /// Propagation: the first clause that is false, if there is one, and
    /// the state in which it was found or in which nothing was left to
    /// assign.
    pub open spec fn propagated(self) -> (Option<usize>, Snapshot)
        decreases self.records.len() - self.trail.len(),
    {
        match first_conflict(self.valuation(), self.db, self.db.len() as int) {
            Some(c) => (Some(c), self),
            None => {
                let next = self.swept();
                if self.trail.len() < next.trail.len() <= next.records.len() && next.records.len()
                    == self.records.len() {
                    next.propagated()
                } else {
                    (None, self)
                }
            },
        }
    }

    /// `v` is assigned by decision.
    pub open spec fn is_decision(self, v: usize) -> bool {
        &&& v < self.records.len()
        &&& self.records[v as int] matches Some(a)
        &&& a.clause is None
    }

    /// The antecedent of `v` holds a literal of the other variable `w`.
    pub open spec fn linked(self, v: usize, w: usize) -> bool {
        &&& v < self.records.len()
        &&& v != w
        &&& self.records[v as int] matches Some(a)
        &&& a.clause matches Some(c)
        &&& exists|i: int| 0 <= i < self.db[c as int].len() && (#[trigger] self.db[c as int][i]).id == w
    }

    /// `path` leads from a variable of the clause `clause` through
    /// antecedents: each of its variables to one of its antecedent.
    pub open spec fn walk(self, clause: int, path: Seq<usize>) -> bool {
        &&& path.len() >= 1
        &&& exists|i: int| 0 <= i < self.db[clause].len() && (#[trigger] self.db[clause][i]).id == path[0]
        &&& forall|i: int| 0 <= i < path.len() - 1 ==> self.linked(#[trigger] path[i], path[i + 1])
    }

    /// Some path from the clause `clause` through antecedents ends in `v`.
    pub open spec fn reached(self, clause: int, v: usize) -> bool {
        exists|path: Seq<usize>| #[trigger] self.walk(clause, path) && path.last() == v
    }

    /// The decisions that are reached from `clause`, among the variables
    /// from place `k` of the trail on, the latest first.
    pub open spec fn roots_above(self, clause: int, k: int) -> Seq<usize>
        decreases self.trail.len() - k,
    {
        if k < 0 || k >= self.trail.len() {
            Seq::empty()
        } else if self.is_decision(self.trail[k]) && self.reached(clause, self.trail[k]) {
            self.roots_above(clause, k + 1).push(self.trail[k])
        } else {
            self.roots_above(clause, k + 1)
        }
    }

    /// Conflict analysis: the decisions behind the conflict in `clause`.
    pub open spec fn analysis(self, clause: int) -> Seq<usize> {
        self.roots_above(clause, 0)
    }

    /// The clause that forbids the decisions `roots` as they stand.
    pub open spec fn forbids(self, roots: Seq<usize>) -> Seq<Literal> {
        Seq::new(
            roots.len(),
            |t: int| Literal { value: !(self.records[roots[t] as int]->0).value, id: roots[t] },
        )
    }

    /// How many assignments stay when the search goes back to level `b`:
    /// the place after the last of the first `k` that is not above `b`.
    pub open spec fn kept(self, b: int, k: int) -> int
        decreases k,
    {
        if k <= 0 {
            0
        } else if self.entry(k - 1).decision_level <= b {
            k
        } else {
            self.kept(b, k - 1)
        }
    }

    /// The state after the conflict with the decisions `roots`, the latest
    /// first, was learned from: the clause that forbids them is appended,
    /// the level is that of the second root, or zero, every assignment above
    /// it is gone, and the first root has the other value by that clause.
    pub open spec fn jumped(self, roots: Seq<usize>) -> Snapshot {
        let b: int = if roots.len() >= 2 {
            (self.records[roots[1] as int]->0).decision_level as int
        } else {
            0
        };
        let cut = self.kept(b, self.trail.len() as int);
        let top = roots[0];
        Snapshot {
            db: self.db.push(self.forbids(roots)),
            records: Seq::new(
                self.records.len(),
                |v: int|
                    if v == top {
                        Some(
                            Assignment {
                                value: !(self.records[top as int]->0).value,
                                clause: Some(self.db.len() as usize),
                                decision_level: b as usize,
                            },
                        )
                    } else if exists|k: int| cut <= k < self.trail.len() && #[trigger] self.trail[k] == v {
                        None
                    } else {
                        self.records[v]
                    },
            ),
            trail: self.trail.take(cut).push(top),
            nodes: self.nodes.take(b + 1),
        }
    }

    /// The weights of the first `k` assignments of the trail, added up: an
    /// assignment weighs the more the lower its level.
    pub open spec fn mass(self, k: int) -> nat
        decreases k,
    {
        if k <= 0 {
            0
        } else {
            self.mass(k - 1) + power(
                self.records.len() + 1,
                (self.records.len() - self.entry(k - 1).decision_level) as nat,
            )
        }
    }

    /// A number that every step of the search raises.
    pub open spec fn progress(self) -> nat {
        self.mass(self.trail.len() as int)
    }

    /// A number that `progress` does not exceed in a search.
    pub open spec fn horizon(self) -> nat {
        self.records.len() * power(self.records.len() + 1, self.records.len())
    }

    /// Whether `next` is further on in the search than `self`.
    pub open spec fn advanced(self, next: Snapshot) -> bool {
        &&& next.records.len() == self.records.len()
        &&& self.progress() < next.progress() <= next.horizon()
    }

    /// Propagation and the resolution of conflicts, until propagation ends
    /// without one or a conflict has no decision behind it: whether it
    /// ended without a conflict, and the state at the end.
    pub open spec fn settled(self) -> (bool, Snapshot)
        decreases self.horizon() - self.progress(),
    {
        let p = self.propagated();
        match p.0 {
            None => (true, p.1),
            Some(c) => {
                let roots = p.1.analysis(c as int);
                if roots.len() == 0 {
                    (false, p.1)
                } else {
                    let next = p.1.jumped(roots);
                    if self.advanced(next) {
                        next.settled()
                    } else {
                        (false, next)
                    }
                }
            },
        }
    }

    /// The search: the verdict and the state at the end.
    pub open spec fn searched(self) -> (Res, Snapshot)
        decreases self.horizon() - self.progress(),
    {
        match self.best() {
            None => (Res::SAT, self),
            Some(l) => {
                let s = self.decided(l).settled();
                if !s.0 {
                    (Res::UNSAT, s.1)
                } else if self.advanced(s.1) {
                    s.1.searched()
                } else {
                    (Res::UNSAT, s.1)
                }
            },
        }
    }
}

/// The state in which a search of the database `f` over `n` variables
/// begins: nothing is assigned, at level zero.
pub open spec fn initial(f: Seq<Seq<Literal>>, n: nat) -> Snapshot {
    Snapshot {
        db: f,
        records: Seq::new(n, |v: int| None::<Assignment>),
        trail: Seq::empty(),
        nodes: seq![0usize],
    }
}

/// The first `k` variables that have a value in `val`, each as its
/// identifier in `names` with that value.
pub open spec fn pairs(names: Seq<usize>, val: Map<usize, bool>, k: int) -> Seq<(usize, bool)>
    decreases k,
{
    if k <= 0 {
        Seq::empty()
    } else if val.contains_key((k - 1) as usize) {
        pairs(names, val, k - 1).push((names[k - 1], val[(k - 1) as usize]))
    } else {
        pairs(names, val, k - 1)
    }
}

/// Each literal as the pair of its variable and its polarity.
pub open spec fn literal_pairs(s: Seq<Literal>) -> Seq<(usize, bool)> {
    Seq::new(s.len(), |k: int| (s[k].id, s[k].value))
}

/// The model as it is reported at the end `end` of a search over the
/// variables `names`: the assigned variables in ascending order, then the
/// literals `units` that the preprocessor forced.
pub open spec fn model_of(names: Seq<usize>, end: Snapshot, units: Seq<Literal>) -> Seq<(usize, bool)> {
    pairs(names, end.valuation(), names.len() as int) + literal_pairs(units)
}

/// The literal that the clause `c` forces under `val`, if it forces one.
pub open spec fn forced_in(val: Map<usize, bool>, c: Seq<Literal>) -> Option<Literal> {
    if exists|l: Literal| unit_in(val, c, l) {
        Some(choose|l: Literal| unit_in(val, c, l))
    } else {
        None
    }
}

/// The literals that the first `k` clauses of `db` force under `val`, each
/// with the index of its clause, in the order of the clauses.
pub open spec fn units_upto(val: Map<usize, bool>, db: Seq<Seq<Literal>>, k: int) -> Seq<(Literal, usize)>
    decreases k,
{
    if k <= 0 || k > db.len() {
        Seq::empty()
    } else {
        match forced_in(val, db[k - 1]) {
            Some(l) => units_upto(val, db, k - 1).push((l, (k - 1) as usize)),
            None => units_upto(val, db, k - 1),
        }
    }
}

/// The first of the first `k` clauses of `db` whose literals are all false
/// under `val`.
pub open spec fn first_conflict(val: Map<usize, bool>, db: Seq<Seq<Literal>>, k: int) -> Option<usize>
    decreases k,
{
    if k <= 0 || k > db.len() {
        None
    } else {
        match first_conflict(val, db, k - 1) {
            Some(c) => Some(c),
            None => if clause_false(val, db[k - 1]) {
                Some((k - 1) as usize)
            } else {
                None
            },
        }
    }
}


/// A clause forces one literal at most.
pub proof fn lemma_forced_in(val: Map<usize, bool>, c: Seq<Literal>, l: Literal)
    requires
        unit_in(val, c, l),
    ensures
        forced_in(val, c) == Some(l),
{
    let other = choose|o: Literal| unit_in(val, c, o);
    if other != l {
        let j = choose|j: int| 0 <= j < c.len() && c[j] == other;
        assert(c[j] != l);
    }
}

/// A clause that is found false stays the first one.
pub proof fn lemma_first_conflict(val: Map<usize, bool>, db: Seq<Seq<Literal>>, k: int, more: int)
    requires
        0 <= k <= more <= db.len(),
        first_conflict(val, db, k) is Some,
    ensures
        first_conflict(val, db, more) == first_conflict(val, db, k),
    decreases more - k,
{
    if k < more {
        lemma_first_conflict(val, db, k, more - 1);
    }
}

} // verus!
