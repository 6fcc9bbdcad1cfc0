//! Sequences without repetition.

use vstd::prelude::*;

verus! {

/// The first occurrence of each element of `s`, in the order of `s`.
pub open spec fn distinct<T>(s: Seq<T>) -> Seq<T>
    decreases s.len(),
{
    if s.len() == 0 {
        Seq::empty()
    } else {
        let front = distinct(s.drop_last());
        if front.contains(s.last()) {
            front
        } else {
            front.push(s.last())
        }
    }
}

/// `distinct(s)` holds the elements of `s` and holds none twice.
pub proof fn lemma_distinct<T>(s: Seq<T>)
    ensures
        distinct(s).no_duplicates(),
        distinct(s).len() <= s.len(),
        forall|l: T| #[trigger] distinct(s).contains(l) <==> s.contains(l),
        s.no_duplicates() ==> distinct(s) == s,
    decreases s.len(),
{
    if s.len() > 0 {
        let front = s.drop_last();
        lemma_distinct(front);
        let d = distinct(front);
        assert forall|l: T| #[trigger] distinct(s).contains(l) <==> s.contains(l) by {
            if s.contains(l) {
                let i = choose|i: int| 0 <= i < s.len() && s[i] == l;
                if i < s.len() - 1 {
                    assert(front[i] == l);
                    assert(d.contains(l));
                    if !d.contains(s.last()) {
                        let j = choose|j: int| 0 <= j < d.len() && d[j] == l;
                        assert(d.push(s.last())[j] == l);
                    }
                } else {
                    if !d.contains(s.last()) {
                        assert(d.push(s.last())[d.len() as int] == l);
                    }
                }
            }
            if distinct(s).contains(l) {
                let j = choose|j: int| 0 <= j < distinct(s).len() && distinct(s)[j] == l;
                if j < d.len() {
                    assert(d[j] == l);
                    assert(d.contains(l));
                    let i = choose|i: int| 0 <= i < front.len() && front[i] == l;
                    assert(s[i] == l);
                } else {
                    assert(s[s.len() - 1] == l);
                }
            }
        }
        if s.no_duplicates() {
            assert(front.no_duplicates());
            if d.contains(s.last()) {
                let i = choose|i: int| 0 <= i < front.len() && front[i] == s.last();
                assert(s[i] == s[s.len() - 1]);
            }
            assert(d.push(s.last()) =~= s);
        }
    }
}

/// Each element is below the next.
pub open spec fn ascending(s: Seq<usize>) -> bool {
    forall|a: int, b: int| 0 <= a < b < s.len() ==> s[a] < s[b]
}

} // verus!
