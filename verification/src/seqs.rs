//! Small facts about sequences used throughout the library.

use vstd::prelude::*;

verus! {

/// The position of the first occurrence of `x` in `s` (`s.len()` if none).
pub open spec fn first_index<A>(s: Seq<A>, x: A) -> int
    decreases s.len(),
{
    if s.len() == 0 {
        0
    } else if s[0] == x {
        0
    } else {
        1 + first_index(s.drop_first(), x)
    }
}

pub proof fn lemma_first_index<A>(s: Seq<A>, x: A, i: int)
    requires
        0 <= i < s.len(),
        s[i] == x,
        forall|j: int| 0 <= j < i ==> s[j] != x,
    ensures
        first_index(s, x) == i,
    decreases s.len(),
{
    if i > 0 {
        let t = s.drop_first();
        assert forall|j: int| 0 <= j < i - 1 implies t[j] != x by {
            assert(t[j] == s[j + 1]);
        }
        lemma_first_index(t, x, i - 1);
    }
}

pub proof fn lemma_first_index_absent<A>(s: Seq<A>, x: A)
    requires
        !s.contains(x),
    ensures
        first_index(s, x) == s.len(),
    decreases s.len(),
{
    if s.len() > 0 {
        let t = s.drop_first();
        assert(s[0] != x);
        assert(!t.contains(x)) by {
            if t.contains(x) {
                let k = choose|k: int| 0 <= k < t.len() && t[k] == x;
                assert(s[k + 1] == x);
            }
        }
        lemma_first_index_absent(t, x);
    }
}

/// `s` with its first occurrence of `x` removed (unchanged if there is none).
pub open spec fn remove_first<A>(s: Seq<A>, x: A) -> Seq<A> {
    if s.contains(x) {
        s.remove(first_index(s, x))
    } else {
        s
    }
}

/// `s` with every occurrence of `x` taken out.
pub open spec fn without<A>(s: Seq<A>, x: A) -> Seq<A>
    decreases s.len(),
{
    if s.len() == 0 {
        s
    } else {
        let rest = without(s.drop_last(), x);
        if s.last() == x {
            rest
        } else {
            rest.push(s.last())
        }
    }
}

/// Taking out an element that is not there changes nothing.
pub proof fn lemma_without_absent<A>(s: Seq<A>, x: A)
    requires
        !s.contains(x),
    ensures
        without(s, x) == s,
    decreases s.len(),
{
    if s.len() > 0 {
        let d = s.drop_last();
        assert(!d.contains(x)) by {
            if d.contains(x) {
                let k = choose|k: int| 0 <= k < d.len() && d[k] == x;
                assert(s[k] == x);
            }
        }
        assert(s.last() != x) by {
            assert(s[s.len() - 1] == s.last());
        }
        lemma_without_absent(d, x);
        assert(d.push(s.last()) =~= s);
    }
}

/// What is left after taking out `x`: every other element, and no `x`.
pub proof fn lemma_without_contains<A>(s: Seq<A>, x: A, y: A)
    ensures
        without(s, x).contains(y) <==> (y != x && s.contains(y)),
        without(s, x).len() <= s.len(),
    decreases s.len(),
{
    if s.len() > 0 {
        let d = s.drop_last();
        lemma_without_contains(d, x, y);
        let rest = without(d, x);
        if s.contains(y) && y != x {
            let k = choose|k: int| 0 <= k < s.len() && s[k] == y;
            if k < s.len() - 1 {
                assert(d[k] == y);
                assert(d.contains(y));
                let j = choose|j: int| 0 <= j < rest.len() && rest[j] == y;
                if s.last() != x {
                    assert(rest.push(s.last())[j] == y);
                }
            } else {
                assert(s.last() == y);
                assert(rest.push(s.last())[rest.len() as int] == y);
            }
        }
        if without(s, x).contains(y) {
            let w = without(s, x);
            let j = choose|j: int| 0 <= j < w.len() && w[j] == y;
            if s.last() != x && j == rest.len() {
                assert(s[s.len() - 1] == y);
            } else {
                assert(rest[j] == y);
                assert(rest.contains(y));
                let k = choose|k: int| 0 <= k < d.len() && d[k] == y;
                assert(s[k] == y);
            }
        }
    }
}

/// The concatenation of a sequence of sequences.
pub open spec fn flatten<A>(ss: Seq<Seq<A>>) -> Seq<A>
    decreases ss.len(),
{
    if ss.len() == 0 {
        Seq::empty()
    } else {
        ss[0] + flatten(ss.drop_first())
    }
}

/// The sum of the lengths of a sequence of sequences.
pub open spec fn total_len<A>(ss: Seq<Seq<A>>) -> nat
    decreases ss.len(),
{
    if ss.len() == 0 {
        0
    } else {
        total_len(ss.drop_last()) + ss.last().len()
    }
}

} // verus!
