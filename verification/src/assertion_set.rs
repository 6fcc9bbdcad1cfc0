//! Literals and clauses, the connectives that emit clauses, and the frames
//! of the assertion stack.

use std::collections::HashMap;
use vstd::prelude::*;
use vstd::string::StringExecFns;
use crate::error::Error;
use crate::model::formula;
use crate::seqs::{distinct, lemma_distinct};
use crate::IdAllocator;

verus! {

/// The digit for `d`, which is below ten.
pub open spec fn digit(d: nat) -> char {
    if d == 0 {
        '0'
    } else if d == 1 {
        '1'
    } else if d == 2 {
        '2'
    } else if d == 3 {
        '3'
    } else if d == 4 {
        '4'
    } else if d == 5 {
        '5'
    } else if d == 6 {
        '6'
    } else if d == 7 {
        '7'
    } else if d == 8 {
        '8'
    } else {
        '9'
    }
}

/// The number `n` in decimal digits, without leading zeros.
pub open spec fn decimal(n: nat) -> Seq<char>
    decreases n,
{
    if n < 10 {
        seq![digit(n)]
    } else {
        decimal(n / 10).push(digit(n % 10))
    }
}

/// The digit for `d` as text.
fn digit_text(d: usize) -> (s: &'static str)
    requires
        d < 10,
    ensures
        s@ == seq![digit(d as nat)],
{
    proof {
        reveal_strlit("0");
        reveal_strlit("1");
        reveal_strlit("2");
        reveal_strlit("3");
        reveal_strlit("4");
        reveal_strlit("5");
        reveal_strlit("6");
        reveal_strlit("7");
        reveal_strlit("8");
        reveal_strlit("9");
    }
    let s = if d == 0 {
        "0"
    } else if d == 1 {
        "1"
    } else if d == 2 {
        "2"
    } else if d == 3 {
        "3"
    } else if d == 4 {
        "4"
    } else if d == 5 {
        "5"
    } else if d == 6 {
        "6"
    } else if d == 7 {
        "7"
    } else if d == 8 {
        "8"
    } else {
        "9"
    };
    assert(s@ =~= seq![digit(d as nat)]);
    s
}

/// The number `n` in decimal digits.
fn decimal_text(n: usize) -> (s: String)
    ensures
        s@ == decimal(n as nat),
    decreases n,
{
    if n < 10 {
        digit_text(n).to_owned()
    } else {
        let mut s = decimal_text(n / 10);
        s.append(digit_text(n % 10));
        proof {
            assert(s@ =~= decimal((n / 10) as nat).push(digit((n % 10) as nat)));
        }
        s
    }
}

/// A Boolean variable together with a polarity: `value` is `true` for the
/// variable itself and `false` for its negation.
#[derive(Clone, Copy, Debug, PartialEq, Eq, Hash, Structural)]
pub struct Literal {
    pub value: bool,
    pub id: usize,
}

impl Literal {
    /// The same variable with the other polarity.
    pub open spec fn negated(self) -> Literal {
        Literal { value: !self.value, id: self.id }
    }

    /// The positive literal of variable `id`.
    pub fn new(id: usize) -> (l: Literal)
        ensures
            l == (Literal { value: true, id }),
    {
        Literal { value: true, id }
    }

    /// The same variable with the other polarity.
    pub fn not(&self) -> (l: Literal)
        ensures
            l == self.negated(),
    {
        Literal { value: !self.value, id: self.id }
    }

    /// The literal as it is written: the identifier in decimal digits,
    /// behind a caret where the literal is a negation.
    pub open spec fn text(self) -> Seq<char> {
        if self.value {
            decimal(self.id as nat)
        } else {
            seq!['^'] + decimal(self.id as nat)
        }
    }

    /// The literal as it is written.
    pub fn to_string(&self) -> (s: String)
        ensures
            s@ == self.text(),
    {
        let digits = decimal_text(self.id);
        if self.value {
            digits
        } else {
            proof {
                reveal_strlit("^");
            }
            let mut s = "^".to_owned();
            s.append(digits.as_str());
            proof {
                assert("^"@ =~= seq!['^']);
            }
            s
        }
    }
}

/// The first `k` of the literals `c` as they are written, with a comma and
/// a blank between one and the next.
pub open spec fn listed(c: Seq<Literal>, k: int) -> Seq<char>
    decreases k,
{
    if k <= 0 {
        Seq::empty()
    } else if k == 1 {
        c[0].text()
    } else {
        listed(c, k - 1) + seq![',', ' '] + c[k - 1].text()
    }
}

/// A disjunction of literals, kept as a sequence in which no literal occurs
/// twice. The empty clause is a contradiction.
#[derive(Debug)]
pub struct Clause {
    pub(crate) literals: Vec<Literal>,
}

impl View for Clause {
    type V = Seq<Literal>;

    open(crate) spec fn view(&self) -> Seq<Literal> {
        self.literals@
    }
}

impl Clone for Clause {
    fn clone(&self) -> (c: Clause)
        ensures
            c@ == self@,
    {
        Clause { literals: self.literals.clone() }
    }
}

impl Default for Clause {
    fn default() -> (c: Clause)
        ensures
            c@ == Seq::<Literal>::empty(),
    {
        Clause { literals: Vec::new() }
    }
}

/// Whether `l` is an element of `v`.
fn holds(v: &Vec<Literal>, l: Literal) -> (b: bool)
    ensures
        b == v@.contains(l),
{
    let mut i: usize = 0;
    while i < v.len()
        invariant
            i <= v.len(),
            forall|j: int| 0 <= j < i ==> v@[j] != l,
        decreases v.len() - i,
    {
        if v[i] == l {
            return true;
        }
        i += 1;
    }
    false
}

impl Clause {
    /// No literal occurs twice.
    pub open spec fn wf(&self) -> bool {
        self@.no_duplicates()
    }

    /// The clause of the given literals; of a literal that is given more
    /// than once the first occurrence stays.
    pub fn new(literals: Vec<Literal>) -> (c: Clause)
        ensures
            c.wf(),
            c@ == distinct(literals@),
    {
        let mut kept: Vec<Literal> = Vec::new();
        let mut i: usize = 0;
        while i < literals.len()
            invariant
                i <= literals.len(),
                kept@ == distinct(literals@.take(i as int)),
            decreases literals.len() - i,
        {
            let l = literals[i];
            proof {
                assert(literals@.take(i as int + 1).drop_last() =~= literals@.take(i as int));
            }
            if !holds(&kept, l) {
                kept.push(l);
            }
            i += 1;
        }
        proof {
            assert(literals@.take(i as int) =~= literals@);
            lemma_distinct(literals@);
        }
        Clause { literals: kept }
    }

    /// The clause as it is written: its literals in their order, between
    /// square brackets.
    pub open spec fn text(&self) -> Seq<char> {
        seq!['['] + listed(self@, self@.len() as int) + seq![']']
    }

    /// The clause as it is written.
    pub fn to_string(&self) -> (s: String)
        ensures
            s@ == self.text(),
    {
        proof {
            reveal_strlit("[");
            reveal_strlit("]");
        }
        let mut s = "[".to_owned();
        let mut k: usize = 0;
        while k < self.literals.len()
            invariant
                k <= self@.len(),
                s@ == seq!['['] + listed(self@, k as int),
            decreases self@.len() - k,
        {
            if k > 0 {
                s.append(", ");
            }
            let one = self.literals[k].to_string();
            s.append(one.as_str());
            proof {
                reveal_strlit(", ");
                assert(", "@ =~= seq![',', ' ']);
                assert(s@ =~= seq!['['] + listed(self@, k as int + 1));
            }
            k += 1;
        }
        s.append("]");
        proof {
            assert("]"@ =~= seq![']']);
            assert(s@ =~= self.text());
        }
        s
    }

    /// The number of literals.
    pub fn len(&self) -> (n: usize)
        ensures
            n == self@.len(),
    {
        self.literals.len()
    }

    /// Whether the clause is the empty clause.
    pub fn is_empty(&self) -> (b: bool)
        ensures
            b == (self@.len() == 0),
    {
        self.literals.len() == 0
    }

    /// The literals, in the order in which they were given.
    pub fn literals(&self) -> (v: &Vec<Literal>)
        ensures
            v@ == self@,
    {
        &self.literals
    }

    /// Whether `l` is a literal of the clause.
    pub fn contains(&self, l: Literal) -> (b: bool)
        ensures
            b == self@.contains(l),
    {
        holds(&self.literals, l)
    }
}

/// The clauses that define `l` as a conjunction of `args`, in the one
/// direction in which they are used: `l` implies each argument.
pub open spec fn and_clauses(l: Literal, args: Seq<Literal>) -> Seq<Seq<Literal>> {
    Seq::new(args.len(), |i: int| distinct(seq![l.negated(), args[i]]))
}

/// The clause by which `l` implies the disjunction of `args`.
pub open spec fn or_clause(l: Literal, args: Seq<Literal>) -> Seq<Literal> {
    distinct(args.push(l.negated()))
}

/// The clause by which `l` implies that `a` implies `b`.
pub open spec fn implication_clause(l: Literal, a: Literal, b: Literal) -> Seq<Literal> {
    distinct(seq![l.negated(), a.negated(), b])
}

/// The clauses by which `l` implies that `a` and `b` are equal, with the
/// helper literals `forward` and `backward` for the two implications.
pub open spec fn equality_clauses(
    l: Literal,
    forward: Literal,
    backward: Literal,
    a: Literal,
    b: Literal,
) -> Seq<Seq<Literal>> {
    seq![
        implication_clause(backward, b, a),
        implication_clause(forward, a, b),
        distinct(seq![l.negated(), forward]),
        distinct(seq![l.negated(), backward]),
    ]
}

/// The positive literal of the identifier `id`.
pub open spec fn fresh(id: int) -> Literal {
    Literal { value: true, id: id as usize }
}

/// No clause holds a literal twice.
pub open spec fn well_formed(db: Seq<Clause>) -> bool {
    forall|i: int| 0 <= i < db.len() ==> (#[trigger] db[i]).wf()
}

/// `clauses` has grown by `added`, and `ids` has issued `used` identifiers.
pub open spec fn emitted(
    before: Seq<Clause>,
    after: Seq<Clause>,
    added: Seq<Seq<Literal>>,
    ids_before: IdAllocator,
    ids_after: IdAllocator,
    used: nat,
) -> bool {
    &&& formula(after) == formula(before) + added
    &&& well_formed(before) ==> well_formed(after)
    &&& ids_before.holds(used)
    &&& ids_after.upcoming() == if ids_before.upcoming() + used > usize::MAX {
        0
    } else {
        (ids_before.upcoming() + used) as usize
    }
}

/// Appends a clause and says what the database then is.
fn emit(clauses: &mut Vec<Clause>, literals: Vec<Literal>)
    ensures
        formula(final(clauses)@) == formula(old(clauses)@).push(distinct(literals@)),
        well_formed(old(clauses)@) ==> well_formed(final(clauses)@),
{
    let clause = Clause::new(literals);
    let ghost before = clauses@;
    clauses.push(clause);
    proof {
        assert(formula(clauses@) =~= formula(before).push(distinct(literals@)));
        if well_formed(before) {
            assert forall|i: int| 0 <= i < clauses@.len() implies (#[trigger] clauses@[i]).wf() by {
                if i < before.len() {
                    assert(clauses@[i] == before[i]);
                }
            }
        }
    }
}

/// A fresh literal that implies each of `args`: for each argument the clause
/// of the literal's negation and the argument is appended. Fails, and
/// changes nothing, where no identifier is left.
pub fn and(args: Vec<Literal>, clauses: &mut Vec<Clause>, ids: &mut IdAllocator) -> (r: Result<
    Literal,
    Error,
>)
    ensures
        match r {
            Ok(l) => l == fresh(old(ids).upcoming() as int) && emitted(
                old(clauses)@,
                final(clauses)@,
                and_clauses(l, args@),
                *old(ids),
                *final(ids),
                1,
            ),
            Err(e) => e == Error::IdExhausted && !old(ids).holds(1) && final(clauses)@ == old(
                clauses,
            )@ && *final(ids) == *old(ids),
        },
{
    if !ids.has(1) {
        return Err(Error::IdExhausted);
    }
    let literal = match ids.get_id() {
        Ok(id) => Literal::new(id),
        Err(e) => {
            return Err(e);
        },
    };
    let ghost wanted = and_clauses(literal, args@);
    let mut i: usize = 0;
    while i < args.len()
        invariant
            i <= args@.len(),
            wanted == and_clauses(literal, args@),
            formula(clauses@) == formula(old(clauses)@) + wanted.take(i as int),
            well_formed(old(clauses)@) ==> well_formed(clauses@),
        decreases args@.len() - i,
    {
        let mut pair: Vec<Literal> = Vec::new();
        pair.push(literal.not());
        pair.push(args[i]);
        proof {
            assert(pair@ =~= seq![literal.negated(), args@[i as int]]);
        }
        let ghost before = formula(clauses@);
        emit(clauses, pair);
        proof {
            assert(wanted.take(i as int + 1) =~= wanted.take(i as int).push(wanted[i as int]));
            assert(formula(clauses@) =~= formula(old(clauses)@) + wanted.take(i as int + 1));
        }
        i += 1;
    }
    proof {
        assert(wanted.take(i as int) =~= wanted);
    }
    Ok(literal)
}

/// A fresh literal that implies the disjunction of `args`: the clause of
/// the arguments and the literal's negation is appended. Fails, and changes
/// nothing, where no identifier is left.
pub fn or(args: Vec<Literal>, clauses: &mut Vec<Clause>, ids: &mut IdAllocator) -> (r: Result<
    Literal,
    Error,
>)
    ensures
        match r {
            Ok(l) => l == fresh(old(ids).upcoming() as int) && emitted(
                old(clauses)@,
                final(clauses)@,
                seq![or_clause(l, args@)],
                *old(ids),
                *final(ids),
                1,
            ),
            Err(e) => e == Error::IdExhausted && !old(ids).holds(1) && final(clauses)@ == old(
                clauses,
            )@ && *final(ids) == *old(ids),
        },
{
    if !ids.has(1) {
        return Err(Error::IdExhausted);
    }
    let literal = match ids.get_id() {
        Ok(id) => Literal::new(id),
        Err(e) => {
            return Err(e);
        },
    };
    let mut all = args;
    all.push(literal.not());
    emit(clauses, all);
    proof {
        assert(formula(clauses@) =~= formula(old(clauses)@) + seq![or_clause(literal, args@)]);
    }
    Ok(literal)
}

/// A fresh literal that implies that the first argument implies the second:
/// the clause of the literal's negation, the first argument's negation and
/// the second argument is appended. Fails, and changes nothing, where there
/// are not two arguments or no identifier is left.
pub fn implication(args: Vec<Literal>, clauses: &mut Vec<Clause>, ids: &mut IdAllocator) -> (r:
    Result<Literal, Error>)
    ensures
        match r {
            Ok(l) => args@.len() == 2 && l == fresh(old(ids).upcoming() as int) && emitted(
                old(clauses)@,
                final(clauses)@,
                seq![implication_clause(l, args@[0], args@[1])],
                *old(ids),
                *final(ids),
                1,
            ),
            Err(e) => final(clauses)@ == old(clauses)@ && *final(ids) == *old(ids) && e == if args@.len()
                != 2 {
                Error::Arity
            } else {
                Error::IdExhausted
            } && (args@.len() != 2 || !old(ids).holds(1)),
        },
{
    if args.len() != 2 {
        return Err(Error::Arity);
    }
    if !ids.has(1) {
        return Err(Error::IdExhausted);
    }
    let literal = match ids.get_id() {
        Ok(id) => Literal::new(id),
        Err(e) => {
            return Err(e);
        },
    };
    let mut triple: Vec<Literal> = Vec::new();
    triple.push(literal.not());
    triple.push(args[0].not());
    triple.push(args[1]);
    proof {
        assert(triple@ =~= seq![literal.negated(), args@[0].negated(), args@[1]]);
    }
    emit(clauses, triple);
    proof {
        assert(formula(clauses@) =~= formula(old(clauses)@) + seq![
            implication_clause(literal, args@[0], args@[1]),
        ]);
    }
    Ok(literal)
}

/// A fresh literal that implies that the two arguments are equal: the
/// conjunction of the implication from the second to the first, which gets
/// the first fresh identifier, and the implication from the first to the
/// second, which gets the next. Fails, and changes nothing, where there are
/// not two arguments or fewer than three identifiers are left. The clauses
/// are emitted whatever the arguments are; they tie the literal to the
/// equality of the arguments only where both arguments have identifiers
/// that were issued before the three that are drawn here.
pub fn equality(args: Vec<Literal>, clauses: &mut Vec<Clause>, ids: &mut IdAllocator) -> (r: Result<
    Literal,
    Error,
>)
    ensures
        match r {
            Ok(l) => args@.len() == 2 && l == fresh(old(ids).upcoming() + 2) && emitted(
                old(clauses)@,
                final(clauses)@,
                equality_clauses(
                    l,
                    fresh(old(ids).upcoming() + 1),
                    fresh(old(ids).upcoming() as int),
                    args@[0],
                    args@[1],
                ),
                *old(ids),
                *final(ids),
                3,
            ),
            Err(e) => final(clauses)@ == old(clauses)@ && *final(ids) == *old(ids) && e == if args@.len()
                != 2 {
                Error::Arity
            } else {
                Error::IdExhausted
            } && (args@.len() != 2 || !old(ids).holds(3)),
        },
{
    if args.len() != 2 {
        return Err(Error::Arity);
    }
    if !ids.has(3) {
        return Err(Error::IdExhausted);
    }
    let a = args[0];
    let b = args[1];
    let mut swapped: Vec<Literal> = Vec::new();
    swapped.push(b);
    swapped.push(a);
    let backward = match implication(swapped, clauses, ids) {
        Ok(l) => l,
        Err(e) => {
            return Err(e);
        },
    };
    let forward = match implication(args, clauses, ids) {
        Ok(l) => l,
        Err(e) => {
            return Err(e);
        },
    };
    let mut both: Vec<Literal> = Vec::new();
    both.push(forward);
    both.push(backward);
    let r = and(both, clauses, ids);
    proof {
        match r {
            Ok(l) => {
                assert(and_clauses(l, both@) =~= seq![
                    distinct(seq![l.negated(), forward]),
                    distinct(seq![l.negated(), backward]),
                ]);
                assert(formula(clauses@) =~= formula(old(clauses)@) + equality_clauses(
                    l,
                    forward,
                    backward,
                    a,
                    b,
                ));
            },
            Err(_) => {},
        }
    }
    r
}

/// A fresh literal that implies that exactly one of the two arguments
/// holds: the equality of the first argument's negation and the second,
/// and so under the same condition on the arguments' identifiers.
pub fn xor(args: Vec<Literal>, clauses: &mut Vec<Clause>, ids: &mut IdAllocator) -> (r: Result<
    Literal,
    Error,
>)
    ensures
        match r {
            Ok(l) => args@.len() == 2 && l == fresh(old(ids).upcoming() + 2) && emitted(
                old(clauses)@,
                final(clauses)@,
                equality_clauses(
                    l,
                    fresh(old(ids).upcoming() + 1),
                    fresh(old(ids).upcoming() as int),
                    args@[0].negated(),
                    args@[1],
                ),
                *old(ids),
                *final(ids),
                3,
            ),
            Err(e) => final(clauses)@ == old(clauses)@ && *final(ids) == *old(ids) && e == if args@.len()
                != 2 {
                Error::Arity
            } else {
                Error::IdExhausted
            } && (args@.len() != 2 || !old(ids).holds(3)),
        },
{
    if args.len() != 2 {
        return Err(Error::Arity);
    }
    let mut turned: Vec<Literal> = Vec::new();
    turned.push(args[0].not());
    turned.push(args[1]);
    equality(turned, clauses, ids)
}


/// The sorts of a declared function, as they are written.
#[derive(Debug)]
pub struct Signature {
    pub parameters: Vec<String>,
    pub result: String,
}

/// The characters of each string.
pub open spec fn texts(v: Seq<String>) -> Seq<Seq<char>> {
    Seq::new(v.len(), |i: int| v[i]@)
}

/// One frame of the assertion stack: the names declared in it, each with
/// its identifier, and the clauses asserted in it.
pub struct AssertionSet {
    uninterpreted_functions: HashMap<usize, Signature>,
    symbol_table: HashMap<usize, String>,
    symbol_table_rev: Vec<(String, usize)>,
    clauses: Vec<Clause>,
}

/// What a frame holds.
pub struct Frame {
    /// The names of the frame, each with its identifier, in the order in
    /// which they were declared.
    pub symbols: Seq<(Seq<char>, usize)>,
    /// The functions that were declared: for the identifier of each, the
    /// sorts of its parameters and the sort of its result.
    pub functions: Map<usize, (Seq<Seq<char>>, Seq<char>)>,
    /// The clauses of the frame.
    pub clauses: Seq<Seq<Literal>>,
}

impl Frame {
    /// No name and no identifier is in the table twice.
    pub open spec fn wf(self) -> bool {
        forall|a: int, b: int|
            0 <= a < b < self.symbols.len() ==> (#[trigger] self.symbols[a]).0 != (
            #[trigger] self.symbols[b]).0 && self.symbols[a].1 != self.symbols[b].1
    }

    /// The frame has an entry for `name`.
    pub open spec fn has_name(self, name: Seq<char>) -> bool {
        exists|k: int| 0 <= k < self.symbols.len() && (#[trigger] self.symbols[k]).0 == name
    }

    /// The frame has an entry with the identifier `id`.
    pub open spec fn has_id(self, id: usize) -> bool {
        exists|k: int| 0 <= k < self.symbols.len() && (#[trigger] self.symbols[k]).1 == id
    }
}

impl View for AssertionSet {
    type V = Frame;

    closed spec fn view(&self) -> Frame {
        Frame {
            symbols: Seq::new(
                self.symbol_table_rev@.len(),
                |k: int| (self.symbol_table_rev@[k].0@, self.symbol_table_rev@[k].1),
            ),
            functions: Map::new(
                |id: usize| self.uninterpreted_functions@.contains_key(id),
                |id: usize|
                    (
                        texts(self.uninterpreted_functions@[id].parameters@),
                        self.uninterpreted_functions@[id].result@,
                    ),
            ),
            clauses: formula(self.clauses@),
        }
    }
}

impl Default for AssertionSet {
    fn default() -> (s: AssertionSet)
        ensures
            s@.symbols.len() == 0,
            s@.functions == Map::<usize, (Seq<Seq<char>>, Seq<char>)>::empty(),
            s@.clauses.len() == 0,
            s.wf(),
    {
        broadcast use vstd::std_specs::hash::group_hash_axioms;

        let s = AssertionSet {
            uninterpreted_functions: HashMap::new(),
            symbol_table: HashMap::new(),
            symbol_table_rev: Vec::new(),
            clauses: Vec::new(),
        };
        proof {
            assert(s@.functions =~= Map::<usize, (Seq<Seq<char>>, Seq<char>)>::empty());
        }
        s
    }
}

impl AssertionSet {
    /// No clause of the frame holds a literal twice, and the table from
    /// identifiers to names holds what the table from names to identifiers
    /// holds.
    pub closed spec fn wf(&self) -> bool {
        &&& well_formed(self.clauses@)
        &&& forall|k: int|
            0 <= k < self.symbol_table_rev@.len() ==> self.symbol_table@.contains_key(
                (#[trigger] self.symbol_table_rev@[k]).1,
            ) && self.symbol_table@[self.symbol_table_rev@[k].1]@ == self.symbol_table_rev@[k].0@
        &&& forall|id: usize| #[trigger]
            self.symbol_table@.contains_key(id) ==> exists|k: int|
                0 <= k < self.symbol_table_rev@.len() && (#[trigger] self.symbol_table_rev@[k]).1 == id
    }

    /// Appends `clauses` to the clauses of the frame.
    pub fn add_clauses(&mut self, clauses: Vec<Clause>)
        ensures
            final(self)@.clauses == old(self)@.clauses + formula(clauses@),
            final(self)@.symbols == old(self)@.symbols,
            final(self)@.functions == old(self)@.functions,
            old(self).wf() && well_formed(clauses@) ==> final(self).wf(),
    {
        let mut clauses = clauses;
        let ghost added = clauses@;
        let ghost before = self.clauses@;
        self.clauses.append(&mut clauses);
        proof {
            assert(self.clauses@ == before + added);
            assert(formula(self.clauses@) =~= formula(before) + formula(added));
            assert(self@.symbols =~= old(self)@.symbols);
            assert(self@.functions =~= old(self)@.functions);
            if well_formed(before) && well_formed(added) {
                assert forall|i: int| 0 <= i < self.clauses@.len() implies (#[trigger] self.clauses@[i]).wf() by {
                    if i < before.len() {
                        assert(self.clauses@[i] == before[i]);
                    } else {
                        assert(self.clauses@[i] == added[i - before.len()]);
                    }
                }
            }
        }
    }

    /// Records that `symbol_id` was declared as a function of the given
    /// sorts, in place of what was recorded for it before.
    pub fn add_uninterpreted_function(&mut self, symbol_id: usize, parameters: Vec<String>, result: String)
        ensures
            final(self)@.functions == old(self)@.functions.insert(
                symbol_id,
                (texts(parameters@), result@),
            ),
            final(self)@.symbols == old(self)@.symbols,
            final(self)@.clauses == old(self)@.clauses,
            final(self).wf() == old(self).wf(),
    {
        broadcast use vstd::std_specs::hash::group_hash_axioms;

        self.uninterpreted_functions.insert(symbol_id, Signature { parameters, result });
        proof {
            assert(self@.functions =~= old(self)@.functions.insert(
                symbol_id,
                (texts(parameters@), result@),
            ));
            assert(self@.symbols =~= old(self)@.symbols);
            assert(self.symbol_table == old(self).symbol_table);
            assert(self.symbol_table_rev == old(self).symbol_table_rev);
            assert(self.clauses == old(self).clauses);
        }
    }

    /// The identifier of `symbol` in this frame, if it has one.
    pub fn get_id(&self, symbol: &str) -> (r: Option<usize>)
        ensures
            match r {
                Some(id) => self@.symbols.contains((symbol@, id)),
                None => !self@.has_name(symbol@),
            },
    {
        let mut k: usize = 0;
        while k < self.symbol_table_rev.len()
            invariant
                k <= self.symbol_table_rev@.len(),
                forall|t: int| 0 <= t < k ==> (#[trigger] self@.symbols[t]).0 != symbol@,
            decreases self.symbol_table_rev@.len() - k,
        {
            if crate::constants::same_text(self.symbol_table_rev[k].0.as_str(), symbol) {
                proof {
                    assert(self@.symbols[k as int] == (symbol@, self.symbol_table_rev@[k as int].1));
                }
                return Some(self.symbol_table_rev[k].1);
            }
            k += 1;
        }
        None
    }

    /// Whether `id` is the identifier of a name of this frame.
    pub fn holds_id(&self, id: usize) -> (b: bool)
        requires
            self.wf(),
        ensures
            b == self@.has_id(id),
    {
        broadcast use vstd::std_specs::hash::group_hash_axioms;

        let b = self.symbol_table.contains_key(&id);
        proof {
            if b {
                let k = choose|k: int|
                    0 <= k < self.symbol_table_rev@.len() && (#[trigger] self.symbol_table_rev@[k]).1 == id;
                assert(self@.symbols[k].1 == id);
            }
            if self@.has_id(id) {
                let k = choose|k: int| 0 <= k < self@.symbols.len() && (#[trigger] self@.symbols[k]).1 == id;
                assert(self.symbol_table_rev@[k].1 == id);
            }
        }
        b
    }

    /// Enters `symbol` with the identifier `id`. Fails where the frame has
    /// the name or the identifier already.
    pub fn set_id(&mut self, symbol: String, id: usize) -> (r: Result<(), Error>)
        requires
            old(self).wf(),
        ensures
            final(self)@.functions == old(self)@.functions,
            final(self)@.clauses == old(self)@.clauses,
            final(self).wf(),
            match r {
                Ok(_) => !old(self)@.has_name(symbol@) && !old(self)@.has_id(id) && final(self)@.symbols
                    == old(self)@.symbols.push((symbol@, id)),
                Err(e) => e == Error::DuplicateSymbol && (old(self)@.has_name(symbol@) || old(
                    self,
                )@.has_id(id)) && final(self)@.symbols == old(self)@.symbols,
            },
    {
        if self.get_id(symbol.as_str()).is_some() {
            proof {
                let found = choose|id: usize| self@.symbols.contains((symbol@, id));
                let k = choose|k: int| 0 <= k < self@.symbols.len() && self@.symbols[k] == (symbol@, found);
                assert(self@.symbols[k].0 == symbol@);
            }
            return Err(Error::DuplicateSymbol);
        }
        if self.holds_id(id) {
            return Err(Error::DuplicateSymbol);
        }
        broadcast use vstd::std_specs::hash::group_hash_axioms;

        let name = symbol.clone();
        self.symbol_table.insert(id, name);
        self.symbol_table_rev.push((symbol, id));
        proof {
            assert(self@.symbols =~= old(self)@.symbols.push((symbol@, id)));
            assert(self@.functions =~= old(self)@.functions);
            let before = old(self).symbol_table_rev@;
            let now = self.symbol_table_rev@;
            assert(!old(self).symbol_table@.contains_key(id)) by {
                if old(self).symbol_table@.contains_key(id) {
                    let k = choose|k: int| 0 <= k < before.len() && (#[trigger] before[k]).1 == id;
                    assert(old(self)@.symbols[k].1 == id);
                }
            }
            assert forall|k: int| 0 <= k < now.len() implies self.symbol_table@.contains_key(
                (#[trigger] now[k]).1,
            ) && self.symbol_table@[now[k].1]@ == now[k].0@ by {
                if k < before.len() {
                    assert(now[k] == before[k]);
                    assert(old(self).symbol_table@.contains_key(before[k].1));
                }
            }
            assert forall|x: usize| #[trigger] self.symbol_table@.contains_key(x) implies exists|k: int|
                0 <= k < now.len() && (#[trigger] now[k]).1 == x by {
                if x == id {
                    assert(now[before.len() as int].1 == x);
                } else {
                    let k = choose|k: int| 0 <= k < before.len() && (#[trigger] before[k]).1 == x;
                    assert(now[k].1 == x);
                }
            }
        }
        Ok(())
    }

    /// The clauses of the frame.
    pub fn get_clauses(&self) -> (r: &Vec<Clause>)
        ensures
            formula(r@) == self@.clauses,
            self.wf() ==> well_formed(r@),
    {
        &self.clauses
    }
}

} // verus!
