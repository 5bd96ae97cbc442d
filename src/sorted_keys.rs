//! Sorting and deduplicating keys, and the orders they are kept in.

use vstd::prelude::*;

verus! {

/// The sequence is sorted in descending order.
pub open spec fn is_descending(s: Seq<usize>) -> bool {
    forall|i: int, j: int| 0 <= i < j < s.len() ==> s[i] >= s[j]
}

/// The sequence is sorted in strictly ascending order.
pub open spec fn is_strictly_ascending(s: Seq<usize>) -> bool {
    forall|i: int, j: int| 0 <= i < j < s.len() ==> s[i] < s[j]
}

/// The sequence is sorted in strictly descending order.
pub open spec fn is_strictly_descending(s: Seq<usize>) -> bool {
    forall|i: int, j: int| 0 <= i < j < s.len() ==> s[i] > s[j]
}

/// A strictly ascending sequence has no repetitions.
pub proof fn lemma_ascending_no_duplicates(s: Seq<usize>)
    requires
        is_strictly_ascending(s),
    ensures
        s.no_duplicates(),
{
    assert forall|i: int, j: int| 0 <= i < s.len() && 0 <= j < s.len() && i != j implies s[i]
        != s[j] by {
        if i < j {
            assert(s[i] < s[j]);
        } else {
            assert(s[j] < s[i]);
        }
    }
}

/// Binary search in a strictly descending sequence: the first position whose
/// key is not greater than `x`.
pub(crate) fn descending_position(v: &Vec<usize>, x: usize) -> (p: usize)
    requires
        is_strictly_descending(v@),
    ensures
        p <= v@.len(),
        forall|j: int| 0 <= j < p ==> v@[j] > x,
        forall|j: int| p <= j < v@.len() ==> v@[j] <= x,
{
    let mut lo: usize = 0;
    let mut hi: usize = v.len();
    while lo < hi
        invariant
            lo <= hi <= v@.len(),
            is_strictly_descending(v@),
            forall|j: int| 0 <= j < lo ==> v@[j] > x,
            forall|j: int| hi <= j < v@.len() ==> v@[j] <= x,
        decreases hi - lo,
    {
        let mid = lo + (hi - lo) / 2;
        if v[mid] > x {
            lo = mid + 1;
        } else {
            hi = mid;
        }
    }
    lo
}

/// Inserts `x` into a strictly descending sequence that lacks it.
pub(crate) fn insert_descending(v: &mut Vec<usize>, x: usize)
    requires
        is_strictly_descending(old(v)@),
        !old(v)@.contains(x),
    ensures
        is_strictly_descending(final(v)@),
        forall|z: usize| final(v)@.contains(z) <==> old(v)@.contains(z) || z == x,
{
    let lo = descending_position(v, x);
    let ghost v0 = v@;
    assert forall|j: int| lo <= j < v0.len() implies v0[j] < x by {
        assert(v0[j] != x);
    }
    v.insert(lo, x);
    proof {
        assert forall|a: int, b: int| 0 <= a < b < v@.len() implies v@[a] > v@[b] by {
            if a < lo && b > lo {
                assert(v@[b] == v0[b - 1]);
            } else if a > lo {
                assert(v@[a] == v0[a - 1] && v@[b] == v0[b - 1]);
            } else if a == lo {
                assert(v@[b] == v0[b - 1]);
            }
        }
        assert forall|z: usize| v@.contains(z) <==> v0.contains(z) || z == x by {
            if v0.contains(z) {
                let j = choose|j: int| 0 <= j < v0.len() && v0[j] == z;
                if j < lo {
                    assert(v@[j] == z);
                } else {
                    assert(v@[j + 1] == z);
                }
            }
            if v@.contains(z) && z != x {
                let j = choose|j: int| 0 <= j < v@.len() && v@[j] == z;
                if j < lo {
                    assert(v0[j] == z);
                } else if j > lo {
                    assert(v0[j - 1] == z);
                }
            }
            if z == x {
                assert(v@[lo as int] == x);
            }
        }
    }
}

/// The keys of a sequence sorted in descending order, in ascending order
/// without repetitions.
pub(crate) fn ascending_distinct(rev_sorted_keys: &Vec<usize>) -> (r: Vec<usize>)
    requires
        is_descending(rev_sorted_keys@),
    ensures
        is_strictly_ascending(r@),
        forall|x: usize| r@.contains(x) <==> rev_sorted_keys@.contains(x),
{
    let ghost s = rev_sorted_keys@;
    let mut r: Vec<usize> = Vec::new();
    let mut i: usize = rev_sorted_keys.len();
    while i > 0
        invariant
            s == rev_sorted_keys@,
            is_descending(s),
            i <= s.len(),
            is_strictly_ascending(r@),
            r@.len() > 0 ==> r@.last() == s[i as int],
            r@.len() == 0 <==> i == s.len(),
            forall|x: usize| r@.contains(x) <==> s.subrange(i as int, s.len() as int).contains(x),
        decreases i,
    {
        i -= 1;
        let k = rev_sorted_keys[i];
        let ghost r0 = r@;
        if r.len() == 0 || r[r.len() - 1] != k {
            r.push(k);
        }
        proof {
            let t0 = s.subrange(i + 1, s.len() as int);
            let t1 = s.subrange(i as int, s.len() as int);
            assert(t1 =~= seq![k] + t0);
            assert forall|x: usize| r@.contains(x) <==> t1.contains(x) by {
                if t1.contains(x) && x != k {
                    let t = choose|t: int| 0 <= t < t1.len() && t1[t] == x;
                    assert(t0[t - 1] == x);
                }
                if t0.contains(x) {
                    let t = choose|t: int| 0 <= t < t0.len() && t0[t] == x;
                    assert(t1[t + 1] == x);
                }
                if x == k {
                    assert(t1[0] == k);
                }
                if r@ != r0 {
                    assert(r@ == r0.push(k));
                    if r@.contains(x) && x != k {
                        let t = choose|t: int| 0 <= t < r@.len() && r@[t] == x;
                        assert(r0[t] == x);
                    }
                    if r0.contains(x) {
                        let t = choose|t: int| 0 <= t < r0.len() && r0[t] == x;
                        assert(r@[t] == x);
                    }
                    assert(r@[r0.len() as int] == k);
                } else if x == k {
                    assert(r0[r0.len() - 1] == k);
                }
            }
            if r@ != r0 && r0.len() > 0 {
                assert(s[i as int] >= s[i + 1]);
                assert forall|a: int, b: int| 0 <= a < b < r@.len() implies r@[a] < r@[b] by {
                    if b == r0.len() {
                        assert(r0[a] <= r0.last());
                    }
                }
            }
        }
    }
    assert(s.subrange(0, s.len() as int) =~= s);
    r
}

/// The keys of `keys`, sorted in descending order without repetitions.
pub(crate) fn sorted_descending(keys: &[usize]) -> (r: Vec<usize>)
    ensures
        is_descending(r@),
        r@.no_duplicates(),
        forall|x: usize| r@.contains(x) <==> keys@.contains(x),
{
    let mut r: Vec<usize> = Vec::new();
    let mut i: usize = 0;
    while i < keys.len()
        invariant
            i <= keys@.len(),
            forall|a: int, b: int| 0 <= a < b < r@.len() ==> r@[a] > r@[b],
            forall|x: usize| r@.contains(x) <==> keys@.subrange(0, i as int).contains(x),
        decreases keys@.len() - i,
    {
        let k = keys[i];
        let p = descending_position(&r, k);
        let ghost r0 = r@;
        if p == r.len() || r[p] != k {
            r.insert(p, k);
            proof {
                assert forall|a: int, b: int| 0 <= a < b < r@.len() implies r@[a] > r@[b] by {
                    if b < p {
                    } else if b == p {
                    } else if a < p {
                        assert(r@[b] == r0[b - 1]);
                    } else if a == p {
                        assert(r@[b] == r0[b - 1]);
                        assert(r0[p as int] <= k);
                        if b - 1 > p {
                            assert(r0[p as int] > r0[b - 1]);
                        }
                    } else {
                        assert(r@[a] == r0[a - 1] && r@[b] == r0[b - 1]);
                    }
                }
            }
        }
        proof {
            let s0 = keys@.subrange(0, i as int);
            let s1 = keys@.subrange(0, i + 1);
            assert(s1 =~= s0.push(k));
            assert forall|x: usize| r@.contains(x) <==> s1.contains(x) by {
                if s0.contains(x) {
                    let t = choose|t: int| 0 <= t < s0.len() && s0[t] == x;
                    assert(s1[t] == x);
                }
                if s1.contains(x) && x != k {
                    let t = choose|t: int| 0 <= t < s1.len() && s1[t] == x;
                    assert(s0[t] == x);
                }
                if x == k {
                    assert(s1[i as int] == k);
                }
                if r@ != r0 {
                    assert(r@ == r0.insert(p as int, k));
                    if r0.contains(x) {
                        let t = choose|t: int| 0 <= t < r0.len() && r0[t] == x;
                        if t < p {
                            assert(r@[t] == x);
                        } else {
                            assert(r@[t + 1] == x);
                        }
                    }
                    if r@.contains(x) && x != k {
                        let t = choose|t: int| 0 <= t < r@.len() && r@[t] == x;
                        if t < p {
                            assert(r0[t] == x);
                        } else if t > p {
                            assert(r0[t - 1] == x);
                        }
                    }
                    assert(r@[p as int] == k);
                } else {
                    if x == k {
                        assert(r0[p as int] == k);
                    }
                }
            }
        }
        i += 1;
    }
    assert(keys@.subrange(0, keys@.len() as int) =~= keys@);
    r
}

} // verus!
