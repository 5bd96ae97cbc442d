//! The records of a dependency graph's nodes as mathematical values: what
//! consistent records are, the edges they hold, and how inserting an edge or
//! dropping nodes changes them.

use crate::occurrences::{
    lemma_count_push, lemma_occurrences_contains, lemma_occurrences_filter, occurrences,
};
use vstd::prelude::*;

verus! {

/// The mathematical content of a [`crate::dependency_graph::Node`]: its two
/// edge lists.
pub struct NodeView {
    /// Nodes that must come before this one.
    pub ins: Seq<usize>,
    /// Nodes that must come after this one.
    pub out: Seq<usize>,
}

/// A node without edges.
pub open spec fn empty_node() -> NodeView {
    NodeView { ins: Seq::empty(), out: Seq::empty() }
}

/// The node records are consistent: every index in an edge list is a node,
/// `b` is an outgoing neighbour of `a` exactly when `a` is an incoming
/// neighbour of `b`, and as many times.
pub open spec fn wf_nodes(v: Seq<NodeView>) -> bool {
    &&& v.len() <= usize::MAX
    &&& forall|a: int, j: int|
        0 <= a < v.len() && 0 <= j < v[a].ins.len() ==> #[trigger] v[a].ins[j] < v.len()
    &&& forall|a: int, j: int|
        0 <= a < v.len() && 0 <= j < v[a].out.len() ==> #[trigger] v[a].out[j] < v.len()
    &&& forall|a: usize, b: usize|
        #![trigger v[a as int].out.contains(b)]
        #![trigger v[b as int].ins.contains(a)]
        a < v.len() && b < v.len() ==> (v[a as int].out.contains(b) <==> v[b as int].ins.contains(
            a,
        ))
    &&& forall|a: usize, b: usize|
        #![trigger occurrences(v[a as int].out, b)]
        #![trigger occurrences(v[b as int].ins, a)]
        a < v.len() && b < v.len() ==> occurrences(v[a as int].out, b) == occurrences(
            v[b as int].ins,
            a,
        )
}

/// The edges that the nodes record: `(a, b)` when `a` must come before `b`.
pub open spec fn edges_of(v: Seq<NodeView>) -> Set<(usize, usize)> {
    Set::new(|e: (usize, usize)| e.0 < v.len() && v[e.0 as int].out.contains(e.1))
}

/// The nodes `v`, extended with empty nodes up to length `n`.
pub open spec fn padded(v: Seq<NodeView>, n: nat) -> Seq<NodeView> {
    Seq::new(n, |i: int| if i < v.len() { v[i] } else { empty_node() })
}

/// The nodes `v` after recording that `first` comes before `second`: storage
/// grows so that both are nodes, `second` is appended to the outgoing list of
/// `first` and `first` to the incoming list of `second`.
pub open spec fn with_edge(v: Seq<NodeView>, first: usize, second: usize) -> Seq<NodeView> {
    let n = vstd::math::max(vstd::math::max(v.len() as int, first + 1), second + 1) as nat;
    let p = padded(v, n);
    let with_out = p.update(
        first as int,
        NodeView { ins: p[first as int].ins, out: p[first as int].out.push(second) },
    );
    with_out.update(
        second as int,
        NodeView { ins: with_out[second as int].ins.push(first), out: with_out[second as int].out },
    )
}

/// The nodes `v` after dropping every node outside `keys`: such a node is
/// left without edges, and every edge to or from it leaves the lists of the
/// other nodes. The other entries keep their order.
pub open spec fn kept_nodes(v: Seq<NodeView>, keys: Set<usize>) -> Seq<NodeView> {
    Seq::new(
        v.len(),
        |i: int|
            if keys.contains(i as usize) {
                NodeView {
                    ins: v[i].ins.filter(|y: usize| keys.contains(y)),
                    out: v[i].out.filter(|y: usize| keys.contains(y)),
                }
            } else {
                empty_node()
            },
    )
}

/// An element is in a filtered sequence when it is in the sequence and meets
/// the predicate.
pub proof fn lemma_filter_contains(s: Seq<usize>, p: spec_fn(usize) -> bool, y: usize)
    ensures
        s.filter(p).contains(y) <==> s.contains(y) && p(y),
{
    if s.filter(p).contains(y) {
        s.lemma_filter_contains_rev(p, y);
        let j = choose|j: int| 0 <= j < s.filter(p).len() && s.filter(p)[j] == y;
        s.lemma_filter_pred(p, j);
    }
    if s.contains(y) && p(y) {
        let j = choose|j: int| 0 <= j < s.len() && s[j] == y;
        s.lemma_filter_contains(p, j);
    }
}

/// Dropping the nodes outside `keys` keeps the records consistent, and leaves
/// exactly the edges between two keys.
pub proof fn lemma_kept_nodes(v: Seq<NodeView>, keys: Set<usize>)
    requires
        wf_nodes(v),
    ensures
        wf_nodes(kept_nodes(v, keys)),
        edges_of(kept_nodes(v, keys)) == edges_of(v).filter(
            |e: (usize, usize)| keys.contains(e.0) && keys.contains(e.1),
        ),
{
    let w = kept_nodes(v, keys);
    let p = |y: usize| keys.contains(y);
    assert forall|a: int, j: int| 0 <= a < w.len() && 0 <= j < w[a].ins.len() implies #[trigger] w[a].ins[j] < w.len() by {
        lemma_filter_contains(v[a].ins, p, w[a].ins[j]);
        let k = choose|k: int| 0 <= k < v[a].ins.len() && v[a].ins[k] == w[a].ins[j];
    }
    assert forall|a: int, j: int| 0 <= a < w.len() && 0 <= j < w[a].out.len() implies #[trigger] w[a].out[j] < w.len() by {
        lemma_filter_contains(v[a].out, p, w[a].out[j]);
        let k = choose|k: int| 0 <= k < v[a].out.len() && v[a].out[k] == w[a].out[j];
    }
    assert forall|a: usize, b: usize| a < w.len() && b < w.len() implies (w[a as int].out.contains(b)
        <==> w[b as int].ins.contains(a)) by {
        lemma_filter_contains(v[a as int].out, p, b);
        lemma_filter_contains(v[b as int].ins, p, a);
    }
    assert forall|a: usize, b: usize| a < w.len() && b < w.len() implies occurrences(
        w[a as int].out,
        b,
    ) == occurrences(w[b as int].ins, a) by {
        lemma_occurrences_filter(v[a as int].out, p, b);
        lemma_occurrences_filter(v[b as int].ins, p, a);
        assert(occurrences(Seq::<usize>::empty(), a) == 0);
        assert(occurrences(Seq::<usize>::empty(), b) == 0);
    }
    assert forall|e: (usize, usize)| #[trigger] edges_of(w).contains(e) <==> edges_of(v).filter(
        |e: (usize, usize)| keys.contains(e.0) && keys.contains(e.1),
    ).contains(e) by {
        if e.0 < v.len() {
            lemma_filter_contains(v[e.0 as int].out, p, e.1);
        }
    }
    assert(edges_of(w) =~= edges_of(v).filter(
        |e: (usize, usize)| keys.contains(e.0) && keys.contains(e.1),
    ));
}

/// Recording an edge keeps the node records consistent.
pub proof fn lemma_with_edge_wf(v: Seq<NodeView>, first: usize, second: usize)
    requires
        wf_nodes(v),
        first < usize::MAX,
        second < usize::MAX,
    ensures
        wf_nodes(with_edge(v, first, second)),
        edges_of(with_edge(v, first, second)) == edges_of(v).insert((first, second)),
{
    let w = with_edge(v, first, second);
    let n = w.len();
    let p = padded(v, n);
    assert forall|a: int, j: int| 0 <= a < n && 0 <= j < w[a].ins.len() implies #[trigger] w[a].ins[j] < n by {
        if a == second && j == w[a].ins.len() - 1 {
        } else {
            assert(w[a].ins[j] == p[a].ins[j]);
        }
    }
    assert forall|a: int, j: int| 0 <= a < n && 0 <= j < w[a].out.len() implies #[trigger] w[a].out[j] < n by {
        if a == first && j == w[a].out.len() - 1 {
        } else {
            assert(w[a].out[j] == p[a].out[j]);
        }
    }
    assert forall|a: usize, b: usize| a < n && b < n implies (w[a as int].out.contains(b)
        <==> w[b as int].ins.contains(a)) by {
        if a == first && b == second {
            assert(w[a as int].out.last() == b);
            assert(w[b as int].ins.last() == a);
        } else {
            if a == first {
                assert(w[a as int].out == p[a as int].out.push(second));
                if w[a as int].out.contains(b) {
                    let j = choose|j: int| 0 <= j < w[a as int].out.len() && w[a as int].out[j] == b;
                    assert(p[a as int].out[j] == b);
                }
                if p[a as int].out.contains(b) {
                    let j = choose|j: int| 0 <= j < p[a as int].out.len() && p[a as int].out[j] == b;
                    assert(w[a as int].out[j] == b);
                }
            } else {
                assert(w[a as int].out == p[a as int].out);
            }
            if b == second {
                assert(w[b as int].ins == p[b as int].ins.push(first));
                if w[b as int].ins.contains(a) {
                    let j = choose|j: int| 0 <= j < w[b as int].ins.len() && w[b as int].ins[j] == a;
                    assert(p[b as int].ins[j] == a);
                }
                if p[b as int].ins.contains(a) {
                    let j = choose|j: int| 0 <= j < p[b as int].ins.len() && p[b as int].ins[j] == a;
                    assert(w[b as int].ins[j] == a);
                }
            } else {
                assert(w[b as int].ins == p[b as int].ins);
            }
            if a < v.len() && b < v.len() {
                assert(v[a as int].out.contains(b) <==> v[b as int].ins.contains(a));
            } else if a >= v.len() {
                assert(p[a as int].out.len() == 0);
                if p[b as int].ins.contains(a) {
                    let j = choose|j: int| 0 <= j < p[b as int].ins.len() && p[b as int].ins[j] == a;
                    assert(b < v.len());
                    assert(v[b as int].ins[j] < v.len());
                }
            } else {
                assert(p[b as int].ins.len() == 0);
                if p[a as int].out.contains(b) {
                    let j = choose|j: int| 0 <= j < p[a as int].out.len() && p[a as int].out[j] == b;
                    assert(v[a as int].out[j] < v.len());
                }
            }
        }
    }
    assert forall|a: usize, b: usize| a < n && b < n implies occurrences(w[a as int].out, b)
        == occurrences(w[b as int].ins, a) by {
        assert(occurrences(Seq::<usize>::empty(), a) == 0);
        assert(occurrences(Seq::<usize>::empty(), b) == 0);
        if a == first {
            lemma_count_push(p[a as int].out, second, set![b]);
        } else {
            assert(w[a as int].out == p[a as int].out);
        }
        if b == second {
            lemma_count_push(p[b as int].ins, first, set![a]);
        } else {
            assert(w[b as int].ins == p[b as int].ins);
        }
        if a < v.len() && b < v.len() {
            assert(occurrences(v[a as int].out, b) == occurrences(v[b as int].ins, a));
        } else if a >= v.len() {
            assert(p[a as int].out.len() == 0);
            if b < v.len() {
                lemma_occurrences_contains(v[b as int].ins, a);
                if v[b as int].ins.contains(a) {
                    let j = choose|j: int| 0 <= j < v[b as int].ins.len() && v[b as int].ins[j] == a;
                    assert(v[b as int].ins[j] < v.len());
                }
            }
        } else {
            assert(p[b as int].ins.len() == 0);
            lemma_occurrences_contains(v[a as int].out, b);
            if v[a as int].out.contains(b) {
                let j = choose|j: int| 0 <= j < v[a as int].out.len() && v[a as int].out[j] == b;
                assert(v[a as int].out[j] < v.len());
            }
        }
    }
    assert forall|e: (usize, usize)| #[trigger] edges_of(w).contains(e) <==> edges_of(v).insert(
        (first, second),
    ).contains(e) by {
        let (a, b) = e;
        if a < n {
            if a == first {
                assert(w[a as int].out == p[a as int].out.push(second));
                if w[a as int].out.contains(b) && b != second {
                    let j = choose|j: int| 0 <= j < w[a as int].out.len() && w[a as int].out[j] == b;
                    assert(p[a as int].out[j] == b);
                }
                if p[a as int].out.contains(b) {
                    let j = choose|j: int| 0 <= j < p[a as int].out.len() && p[a as int].out[j] == b;
                    assert(w[a as int].out[j] == b);
                }
                assert(w[a as int].out.last() == second);
            } else {
                assert(w[a as int].out == p[a as int].out);
            }
        }
    }
    assert(edges_of(w) =~= edges_of(v).insert((first, second)));
}

} // verus!
