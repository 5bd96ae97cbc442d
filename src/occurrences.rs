//! Counting the entries of an edge list: how often one index occurs, and how
//! many entries fall in a set of indices.

use vstd::prelude::*;

verus! {

/// The number of entries of `s` that belong to `r`.
pub open spec fn count_in(s: Seq<usize>, r: Set<usize>) -> nat
    decreases s.len(),
{
    if s.len() == 0 {
        0
    } else {
        count_in(s.drop_last(), r) + if r.contains(s.last()) {
            1nat
        } else {
            0nat
        }
    }
}

/// The number of times `b` occurs in `s`.
pub open spec fn occurrences(s: Seq<usize>, b: usize) -> nat {
    count_in(s, set![b])
}

/// Appending an entry counts it once.
pub proof fn lemma_count_push(s: Seq<usize>, v: usize, r: Set<usize>)
    ensures
        count_in(s.push(v), r) == count_in(s, r) + if r.contains(v) {
            1nat
        } else {
            0nat
        },
{
    assert(s.push(v).drop_last() =~= s);
}

/// No entry belongs to `r` exactly when the count is zero.
pub proof fn lemma_count_zero(s: Seq<usize>, r: Set<usize>)
    ensures
        count_in(s, r) == 0 <==> forall|j: int| 0 <= j < s.len() ==> !r.contains(#[trigger] s[j]),
    decreases s.len(),
{
    if s.len() > 0 {
        let d = s.drop_last();
        lemma_count_zero(d, r);
        assert(forall|j: int| 0 <= j < d.len() ==> d[j] == s[j]);
        if count_in(s, r) == 0 {
            assert forall|j: int| 0 <= j < s.len() implies !r.contains(#[trigger] s[j]) by {
                if j < d.len() {
                    assert(d[j] == s[j]);
                }
            }
        }
    }
}

/// An index occurs in `s` exactly when it is an entry.
pub proof fn lemma_occurrences_contains(s: Seq<usize>, b: usize)
    ensures
        occurrences(s, b) > 0 <==> s.contains(b),
{
    lemma_count_zero(s, set![b]);
    if s.contains(b) {
        let j = choose|j: int| 0 <= j < s.len() && s[j] == b;
        assert(set![b].contains(s[j]));
    }
}

/// Counting in `r` is counting in `r` without `y`, plus the occurrences of
/// `y`.
pub proof fn lemma_count_split(s: Seq<usize>, r: Set<usize>, y: usize)
    requires
        r.contains(y),
    ensures
        count_in(s, r) == count_in(s, r.remove(y)) + occurrences(s, y),
    decreases s.len(),
{
    if s.len() > 0 {
        lemma_count_split(s.drop_last(), r, y);
    }
}

/// Filtering by a predicate keeps the occurrences of the indices that meet
/// it, and drops the others.
pub proof fn lemma_occurrences_filter(s: Seq<usize>, p: spec_fn(usize) -> bool, b: usize)
    ensures
        occurrences(s.filter(p), b) == if p(b) {
            occurrences(s, b)
        } else {
            0
        },
    decreases s.len(),
{
    reveal(Seq::filter);
    if s.len() > 0 {
        let d = s.drop_last();
        lemma_occurrences_filter(d, p, b);
        if p(s.last()) {
            lemma_count_push(d.filter(p), s.last(), set![b]);
        }
    }
}

/// A prefix counts no more than the whole.
pub proof fn lemma_count_prefix(s: Seq<usize>, j: int, r: Set<usize>)
    requires
        0 <= j <= s.len(),
    ensures
        count_in(s.subrange(0, j), r) <= count_in(s, r),
    decreases s.len() - j,
{
    if j < s.len() {
        lemma_count_prefix(s, j + 1, r);
        assert(s.subrange(0, j + 1).drop_last() =~= s.subrange(0, j));
    } else {
        assert(s.subrange(0, j) =~= s);
    }
}

} // verus!
