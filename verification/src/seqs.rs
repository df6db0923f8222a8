//! Searching and splitting sequences: first and last occurrence of an item, and the pieces between
//! separators.

use vstd::prelude::*;

verus! {

/// The number of items before the first `c`; the length of `s` where `c` does not occur.
pub open spec fn until<T>(s: Seq<T>, c: T) -> int
    decreases s.len(),
{
    if s.len() == 0 || s[0] == c {
        0
    } else {
        1 + until(s.drop_first(), c)
    }
}

/// The index of the last `c`; -1 where `c` does not occur.
pub open spec fn last_index<T>(s: Seq<T>, c: T) -> int
    decreases s.len(),
{
    if s.len() == 0 {
        -1
    } else if s.last() == c {
        s.len() - 1
    } else {
        last_index(s.drop_last(), c)
    }
}

/// The pieces of `s` between the occurrences of `c`: one more than there are occurrences.
pub open spec fn pieces<T>(s: Seq<T>, c: T) -> Seq<Seq<T>>
    decreases s.len(),
{
    let i = until(s, c);
    if i >= s.len() {
        seq![s]
    } else {
        proof {
            lemma_until_bounds(s, c);
        }
        seq![s.take(i)] + pieces(s.skip(i + 1), c)
    }
}

/// `until` stays within the sequence, finds `c` where it is smaller than the length, and passes no
/// `c` on the way.
pub proof fn lemma_until_bounds<T>(s: Seq<T>, c: T)
    ensures
        0 <= until(s, c) <= s.len(),
        until(s, c) < s.len() ==> s[until(s, c)] == c,
        forall|j: int| 0 <= j < until(s, c) ==> s[j] != c,
    decreases s.len(),
{
    if s.len() == 0 || s[0] == c {
    } else {
        let t = s.drop_first();
        lemma_until_bounds(t, c);
        assert forall|j: int| 0 <= j < until(s, c) implies s[j] != c by {
            if j > 0 {
                assert(s[j] == t[j - 1]);
            }
        }
    }
}

/// The only index with the properties of `until` is `until`.
pub proof fn lemma_until_is<T>(s: Seq<T>, c: T, i: int)
    requires
        0 <= i <= s.len(),
        i < s.len() ==> s[i] == c,
        forall|j: int| 0 <= j < i ==> s[j] != c,
    ensures
        until(s, c) == i,
{
    lemma_until_bounds(s, c);
    let u = until(s, c);
    if u < i {
        assert(s[u] != c);
    }
    if i < u {
        assert(s[i] != c);
    }
}

/// `last_index` is -1 or within the sequence, and no `c` stands behind it.
pub proof fn lemma_last_index_bounds<T>(s: Seq<T>, c: T)
    ensures
        -1 <= last_index(s, c) < s.len(),
        last_index(s, c) >= 0 ==> s[last_index(s, c)] == c,
        forall|j: int| last_index(s, c) < j < s.len() ==> s[j] != c,
    decreases s.len(),
{
    if s.len() == 0 || s.last() == c {
    } else {
        let t = s.drop_last();
        lemma_last_index_bounds(t, c);
        assert forall|j: int| last_index(s, c) < j < s.len() implies s[j] != c by {
            if j < s.len() - 1 {
                assert(s[j] == t[j]);
            }
        }
    }
}

/// The only index with the properties of `last_index` is `last_index`.
pub proof fn lemma_last_index_is<T>(s: Seq<T>, c: T, i: int)
    requires
        -1 <= i < s.len(),
        i >= 0 ==> s[i] == c,
        forall|j: int| i < j < s.len() ==> s[j] != c,
    ensures
        last_index(s, c) == i,
{
    lemma_last_index_bounds(s, c);
    let u = last_index(s, c);
    if u > i {
        assert(s[u] != c);
    }
    if i > u {
        assert(s[i] != c);
    }
}

} // verus!
