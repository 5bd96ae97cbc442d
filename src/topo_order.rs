//! The order in which a dependency graph sorts a set of keys, stated over
//! sets, with the facts about it that the sort and its users rely on.

use vstd::prelude::*;

verus! {

/// `x` is the smallest element of `s`.
pub open spec fn is_least(s: Set<usize>, x: usize) -> bool {
    s.contains(x) && forall|y: usize| #[trigger] s.contains(y) ==> x <= y
}

/// The smallest element of `s` (meaningful when `s` is finite and not empty).
pub open spec fn least(s: Set<usize>) -> usize {
    choose|x: usize| is_least(s, x)
}

/// No edge leads into `x` from a key of `rem`.
pub open spec fn is_free(edges: Set<(usize, usize)>, rem: Set<usize>, x: usize) -> bool {
    forall|y: usize| #[trigger] rem.contains(y) ==> !edges.contains((y, x))
}

/// The keys of `rem` that no key of `rem` must precede.
pub open spec fn free_keys(edges: Set<(usize, usize)>, rem: Set<usize>) -> Set<usize> {
    rem.filter(|x: usize| is_free(edges, rem, x))
}

/// The key that is emitted next out of `rem`: the smallest free key or, when
/// every key of `rem` has a predecessor in `rem` (a cycle), the smallest key.
pub open spec fn next_key(edges: Set<(usize, usize)>, rem: Set<usize>) -> usize {
    let free = free_keys(edges, rem);
    if free.is_empty() {
        least(rem)
    } else {
        least(free)
    }
}

/// The topological order of the keys `rem` under `edges` (a pair `(a, b)`
/// means that `a` comes before `b`): each key appears once, and each step
/// emits `next_key` of what remains.
pub open spec fn topo_order(edges: Set<(usize, usize)>, rem: Set<usize>) -> Seq<usize>
    decreases rem.len(),
    via topo_order_decreases
{
    if rem.finite() && rem.len() > 0 {
        let x = next_key(edges, rem);
        seq![x] + topo_order(edges, rem.remove(x))
    } else {
        Seq::empty()
    }
}

#[via_fn]
proof fn topo_order_decreases(edges: Set<(usize, usize)>, rem: Set<usize>) {
    if rem.finite() && rem.len() > 0 {
        lemma_next_key_in(edges, rem);
    }
}

/// A finite set that is not empty has a smallest element.
pub proof fn lemma_least(s: Set<usize>)
    requires
        s.finite(),
        s.len() > 0,
    ensures
        is_least(s, least(s)),
    decreases s.len(),
{
    let a = s.choose();
    let t = s.remove(a);
    if t.len() == 0 {
        assert forall|y: usize| #[trigger] s.contains(y) implies a <= y by {
            if y != a {
                assert(t.contains(y));
            }
        }
        assert(is_least(s, a));
    } else {
        lemma_least(t);
        let m = least(t);
        if a <= m {
            assert forall|y: usize| #[trigger] s.contains(y) implies a <= y by {
                if y != a {
                    assert(t.contains(y));
                }
            }
            assert(is_least(s, a));
        } else {
            assert forall|y: usize| #[trigger] s.contains(y) implies m <= y by {
                if y != a {
                    assert(t.contains(y));
                }
            }
            assert(is_least(s, m));
        }
    }
}

/// Two smallest elements of one set are the same.
pub proof fn lemma_least_unique(s: Set<usize>, x: usize)
    requires
        is_least(s, x),
    ensures
        least(s) == x,
{
    assert(is_least(s, least(s)));
    assert(s.contains(x));
    assert(s.contains(least(s)));
}

/// The key emitted next is one of the remaining keys, and it is free unless
/// no remaining key is.
pub proof fn lemma_next_key_in(edges: Set<(usize, usize)>, rem: Set<usize>)
    requires
        rem.finite(),
        rem.len() > 0,
    ensures
        rem.contains(next_key(edges, rem)),
        !free_keys(edges, rem).is_empty() ==> free_keys(edges, rem).contains(next_key(edges, rem)),
        !free_keys(edges, rem).is_empty() ==> is_least(free_keys(edges, rem), next_key(edges, rem)),
        free_keys(edges, rem).is_empty() ==> is_least(rem, next_key(edges, rem)),
{
    let free = free_keys(edges, rem);
    if free.is_empty() {
        lemma_least(rem);
    } else {
        rem.lemma_len_filter(|x: usize| is_free(edges, rem, x));
        assert(free.len() > 0) by {
            if free.len() == 0 {
                free.lemma_len0_is_empty();
            }
        }
        lemma_least(free);
    }
}

/// The order holds each key of `rem` exactly once, and nothing else.
pub proof fn lemma_topo_order_permutes(edges: Set<(usize, usize)>, rem: Set<usize>)
    requires
        rem.finite(),
    ensures
        topo_order(edges, rem).len() == rem.len(),
        topo_order(edges, rem).no_duplicates(),
        forall|x: usize| #[trigger] topo_order(edges, rem).contains(x) <==> rem.contains(x),
    decreases rem.len(),
{
    let r = topo_order(edges, rem);
    if rem.len() == 0 {
        assert forall|x: usize| #[trigger] r.contains(x) <==> rem.contains(x) by {
            if rem.contains(x) {
                rem.lemma_len0_is_empty();
            }
        }
    } else {
        lemma_next_key_in(edges, rem);
        let x = next_key(edges, rem);
        let rest = rem.remove(x);
        lemma_topo_order_permutes(edges, rest);
        let t = topo_order(edges, rest);
        assert(r == seq![x] + t);
        assert forall|y: usize| #[trigger] r.contains(y) <==> rem.contains(y) by {
            if r.contains(y) {
                let i = choose|i: int| 0 <= i < r.len() && r[i] == y;
                if i > 0 {
                    assert(t[i - 1] == y);
                    assert(t.contains(y));
                }
            }
            if rem.contains(y) && y != x {
                assert(t.contains(y));
                let i = choose|i: int| 0 <= i < t.len() && t[i] == y;
                assert(r[i + 1] == y);
            }
            if y == x {
                assert(r[0] == y);
            }
        }
        assert forall|i: int, j: int| 0 <= i < r.len() && 0 <= j < r.len() && i != j implies r[i]
            != r[j] by {
            if i > 0 && j > 0 {
                assert(r[i] == t[i - 1] && r[j] == t[j - 1]);
            } else if i == 0 {
                assert(r[j] == t[j - 1]);
                assert(t.contains(r[j]));
            } else {
                assert(r[i] == t[i - 1]);
                assert(t.contains(r[i]));
            }
        }
    }
}

/// The order depends only on the edges between keys of `rem`.
pub proof fn lemma_topo_order_local(
    e1: Set<(usize, usize)>,
    e2: Set<(usize, usize)>,
    rem: Set<usize>,
)
    requires
        rem.finite(),
        forall|a: usize, b: usize|
            rem.contains(a) && rem.contains(b) ==> (e1.contains((a, b)) <==> e2.contains((a, b))),
    ensures
        topo_order(e1, rem) == topo_order(e2, rem),
    decreases rem.len(),
{
    if rem.len() > 0 {
        assert(free_keys(e1, rem) =~= free_keys(e2, rem)) by {
            assert forall|x: usize| rem.contains(x) implies is_free(e1, rem, x) == is_free(
                e2,
                rem,
                x,
            ) by {
                if !is_free(e1, rem, x) {
                    let y = choose|y: usize| rem.contains(y) && e1.contains((y, x));
                    assert(e2.contains((y, x)));
                }
                if !is_free(e2, rem, x) {
                    let y = choose|y: usize| rem.contains(y) && e2.contains((y, x));
                    assert(e1.contains((y, x)));
                }
            }
        }
        let x = next_key(e1, rem);
        assert(x == next_key(e2, rem));
        lemma_next_key_in(e1, rem);
        lemma_topo_order_local(e1, e2, rem.remove(x));
    }
}

/// A finite set that is not empty has an element of smallest rank.
proof fn lemma_min_rank(s: Set<usize>, rank: spec_fn(usize) -> nat) -> (x: usize)
    requires
        s.finite(),
        s.len() > 0,
    ensures
        s.contains(x),
        forall|y: usize| #[trigger] s.contains(y) ==> rank(x) <= rank(y),
    decreases s.len(),
{
    let a = s.choose();
    let t = s.remove(a);
    if t.len() == 0 {
        assert forall|y: usize| #[trigger] s.contains(y) implies rank(a) <= rank(y) by {
            if y != a {
                assert(t.contains(y));
            }
        }
        a
    } else {
        let m = lemma_min_rank(t, rank);
        let x = if rank(a) <= rank(m) { a } else { m };
        assert forall|y: usize| #[trigger] s.contains(y) implies rank(x) <= rank(y) by {
            if y != a {
                assert(t.contains(y));
            }
        }
        x
    }
}

/// Where the edges between keys of `rem` admit a ranking that grows along
/// every edge (they form no cycle), the order is a true topological order:
/// the source of every edge comes before its target.
pub proof fn lemma_topo_order_respects_edges(
    edges: Set<(usize, usize)>,
    rem: Set<usize>,
    rank: spec_fn(usize) -> nat,
)
    requires
        rem.finite(),
        forall|a: usize, b: usize|
            rem.contains(a) && rem.contains(b) && #[trigger] edges.contains((a, b)) ==> rank(a)
                < rank(b),
    ensures
        forall|i: int, j: int|
            0 <= i < topo_order(edges, rem).len() && 0 <= j < topo_order(edges, rem).len()
                && edges.contains((topo_order(edges, rem)[i], topo_order(edges, rem)[j])) ==> i < j,
    decreases rem.len(),
{
    let r = topo_order(edges, rem);
    if rem.len() > 0 {
        let m = lemma_min_rank(rem, rank);
        assert(free_keys(edges, rem).contains(m));
        lemma_next_key_in(edges, rem);
        let x = next_key(edges, rem);
        assert(is_free(edges, rem, x));
        let rest = rem.remove(x);
        lemma_topo_order_respects_edges(edges, rest, rank);
        lemma_topo_order_permutes(edges, rest);
        let t = topo_order(edges, rest);
        assert(r == seq![x] + t);
        assert forall|i: int, j: int|
            0 <= i < r.len() && 0 <= j < r.len() && edges.contains((r[i], r[j])) implies i < j by {
            if j == 0 {
                if i > 0 {
                    assert(r[i] == t[i - 1]);
                    assert(t.contains(r[i]));
                }
                assert(rem.contains(r[i]));
            } else if i > 0 {
                assert(r[i] == t[i - 1] && r[j] == t[j - 1]);
            }
        }
    }
}

/// Without edges between keys of `rem`, the order is ascending.
pub proof fn lemma_topo_order_without_edges(edges: Set<(usize, usize)>, rem: Set<usize>)
    requires
        rem.finite(),
        forall|a: usize, b: usize|
            rem.contains(a) && rem.contains(b) ==> !#[trigger] edges.contains((a, b)),
    ensures
        forall|i: int, j: int|
            0 <= i < j < topo_order(edges, rem).len() ==> topo_order(edges, rem)[i] < topo_order(
                edges,
                rem,
            )[j],
    decreases rem.len(),
{
    let r = topo_order(edges, rem);
    if rem.len() > 0 {
        lemma_next_key_in(edges, rem);
        let x = next_key(edges, rem);
        lemma_least(rem);
        let l = least(rem);
        assert(free_keys(edges, rem).contains(l));
        assert(is_least(free_keys(edges, rem), l));
        lemma_least_unique(free_keys(edges, rem), l);
        assert(x == l);
        let rest = rem.remove(x);
        lemma_topo_order_without_edges(edges, rest);
        lemma_topo_order_permutes(edges, rest);
        let t = topo_order(edges, rest);
        assert(r == seq![x] + t);
        assert forall|i: int, j: int| 0 <= i < j < r.len() implies r[i] < r[j] by {
            assert(r[j] == t[j - 1]);
            assert(t.contains(r[j]));
            if i > 0 {
                assert(r[i] == t[i - 1]);
            } else {
                assert(rem.contains(r[j]));
            }
        }
    }
}

} // verus!
