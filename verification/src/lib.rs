//! A decision procedure for propositional satisfiability: a Tseitin-style
//! compiler from Boolean terms to clauses, a preprocessor, and a
//! conflict-driven clause-learning engine, each with a proved contract.

use vstd::prelude::*;

pub mod error;
pub mod seqs;
pub mod assertion_set;
pub mod constants;
pub mod model;
pub mod solver;
pub mod preprocess;
pub mod theorems;
pub mod search;
pub mod cdcl;
pub mod context;
pub mod tseitin;

verus! {

use crate::error::Error;

/// Issues identifiers for fresh Boolean names: 1, 2, 3, ... in this order.
/// Once the counter has wrapped around, every request fails.
pub struct IdAllocator {
    next: usize,
}

impl IdAllocator {
    /// The identifier that the next request returns; 0 when none is left.
    pub closed spec fn upcoming(&self) -> usize {
        self.next
    }

    /// An allocator whose first identifier is 1.
    pub fn new() -> (ids: IdAllocator)
        ensures
            ids.upcoming() == 1,
    {
        IdAllocator { next: 1 }
    }

    /// An allocator that goes on from `next`; from zero it issues nothing.
    pub fn resume(next: usize) -> (ids: IdAllocator)
        ensures
            ids.upcoming() == next,
    {
        IdAllocator { next }
    }

    /// The identifiers from `upcoming()` on are `count` at least.
    pub open spec fn holds(&self, count: nat) -> bool {
        count == 0 || (self.upcoming() != 0 && self.upcoming() + count - 1 <= usize::MAX)
    }

    /// Whether `count` more identifiers can be issued.
    pub fn has(&self, count: usize) -> (b: bool)
        ensures
            b == self.holds(count as nat),
    {
        count == 0 || (self.next != 0 && count - 1 <= usize::MAX - self.next)
    }

    /// Returns the upcoming identifier and advances the counter; fails once
    /// the counter has wrapped to zero, and then leaves it there.
    pub fn get_id(&mut self) -> (r: Result<usize, Error>)
        ensures
            old(self).upcoming() != 0 ==> r == Ok::<usize, Error>(old(self).upcoming()),
            old(self).upcoming() != 0 && old(self).upcoming() < usize::MAX ==> final(self).upcoming()
                == old(self).upcoming() + 1,
            old(self).upcoming() == usize::MAX ==> final(self).upcoming() == 0,
            old(self).upcoming() == 0 ==> r == Err::<usize, Error>(Error::IdExhausted)
                && final(self).upcoming() == 0,
    {
        let id: usize = self.next;
        if id == 0 {
            return Err(Error::IdExhausted);
        }
        self.next = if id == usize::MAX {
            0
        } else {
            id + 1
        };
        Ok(id)
    }
}

/// Takes the next identifier from `ids`.
pub fn get_id(ids: &mut IdAllocator) -> (r: Result<usize, Error>)
    ensures
        old(ids).upcoming() != 0 ==> r == Ok::<usize, Error>(old(ids).upcoming()),
        old(ids).upcoming() != 0 && old(ids).upcoming() < usize::MAX ==> final(ids).upcoming()
            == old(ids).upcoming() + 1,
        old(ids).upcoming() == usize::MAX ==> final(ids).upcoming() == 0,
        old(ids).upcoming() == 0 ==> r == Err::<usize, Error>(Error::IdExhausted)
            && final(ids).upcoming() == 0,
{
    ids.get_id()
}

} // verus!
