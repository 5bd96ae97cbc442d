//! A dependency graph over dense integer indices, sorting any subset of them
//! in topological order and breaking cycles on the smallest index.

use crate::node_records::{
    edges_of, empty_node, kept_nodes, lemma_kept_nodes, lemma_with_edge_wf, padded, wf_nodes,
    with_edge, NodeView,
};
use crate::occurrences::{
    count_in, lemma_count_prefix, lemma_count_push, lemma_count_split, lemma_count_zero,
    lemma_occurrences_contains, occurrences,
};
use crate::sorted_keys::{
    ascending_distinct, insert_descending, is_descending, is_strictly_ascending,
    is_strictly_descending, lemma_ascending_no_duplicates, sorted_descending,
};
use crate::topo_order::{
    free_keys, is_free, is_least, lemma_least_unique, lemma_topo_order_local,
    lemma_topo_order_permutes, lemma_topo_order_without_edges, next_key, topo_order,
};
use vstd::prelude::*;

verus! {

/// A dependency graph node. Registers all incoming and outgoing edges.
#[derive(Clone, Debug, Default)]
pub struct Node {
    /// Nodes that must come before this one.
    pub ins: Vec<usize>,
    /// Nodes that must come after this one.
    pub out: Vec<usize>,
}

impl View for Node {
    type V = NodeView;

    open spec fn view(&self) -> NodeView {
        NodeView { ins: self.ins@, out: self.out@ }
    }
}

/// Dependency graph keeping track of [`Node`]s and their dependencies.
///
/// The graph is not sparse: if there is a dependency on the node of index `X`,
/// the graph holds at least `X + 1` nodes. A node that takes part in no edge
/// keeps an empty record, so that the dependency information of the other
/// nodes stays intact when it is left out of a sort.
#[derive(Clone, Debug, Default)]
pub struct DependencyGraph {
    nodes: Vec<Node>,
}

impl View for DependencyGraph {
    type V = Seq<NodeView>;

    closed spec fn view(&self) -> Seq<NodeView> {
        self.nodes@.map_values(|n: Node| n@)
    }
}

impl DependencyGraph {
    /// The graph's node records are consistent (see [`wf_nodes`]).
    pub open spec fn wf(&self) -> bool {
        wf_nodes(self@)
    }

    /// The edges of the graph.
    pub open spec fn edges(&self) -> Set<(usize, usize)> {
        edges_of(self@)
    }

    /// Constructor.
    pub fn new() -> (r: Self)
        ensures
            r@ == Seq::<NodeView>::empty(),
            r.wf(),
            r.edges() == Set::<(usize, usize)>::empty(),
    {
        let r = DependencyGraph { nodes: Vec::new() };
        assert(r@ =~= Seq::<NodeView>::empty());
        assert(r.edges() =~= Set::<(usize, usize)>::empty());
        r
    }

    /// Insert a new dependency into the graph: `first` must come before
    /// `second`. Storage grows so that both are nodes. Inserting the same
    /// dependency again records it again.
    pub fn insert_dependency(&mut self, first: usize, second: usize)
        requires
            old(self).wf(),
            first < usize::MAX,
            second < usize::MAX,
        ensures
            final(self)@ == with_edge(old(self)@, first, second),
            final(self).wf(),
            final(self).edges() == old(self).edges().insert((first, second)),
    {
        let top = if first > second { first } else { second };
        let ghost v0 = self@;
        while self.nodes.len() <= top
            invariant
                v0.len() <= self@.len(),
                self@.len() <= vstd::math::max(v0.len() as int, top + 1),
                self@ == padded(v0, self@.len()),
                top == vstd::math::max(first as int, second as int),
            decreases top + 1 - self.nodes.len(),
        {
            let ghost before = self.nodes@;
            let ghost bv = self@;
            let node = Node { ins: Vec::new(), out: Vec::new() };
            assert(node@ =~= empty_node());
            self.nodes.push(node);
            proof {
                assert(self.nodes@ == before.push(node));
                assert(self@ =~= padded(v0, self@.len())) by {
                    assert forall|i: int| 0 <= i < self@.len() implies self@[i] == padded(
                        v0,
                        self@.len(),
                    )[i] by {
                        if i < before.len() {
                            assert(self.nodes@[i] == before[i]);
                            assert(bv[i] == padded(v0, bv.len())[i]);
                            assert(self@[i] == bv[i]);
                        } else {
                            assert(self.nodes@[i] == node);
                        }
                    }
                }
            }
        }
        let ghost p = self@;
        self.nodes[first].out.push(second);
        self.nodes[second].ins.push(first);
        proof {
            let v1 = with_edge(v0, first, second);
            assert(p =~= padded(v0, v1.len()));
            assert(self@ =~= v1);
            lemma_with_edge_wf(v0, first, second);
        }
    }

    /// Removes all dependencies from the nodes whose indices are not in `keys`:
    /// such a node is left without edges, and every edge to or from it is
    /// removed from the lists of its neighbours. Nodes among `keys` keep
    /// their other edges, and the storage keeps its size.
    pub fn keep_only(&mut self, keys: &[usize])
        requires
            old(self).wf(),
        ensures
            final(self)@ == kept_nodes(old(self)@, keys@.to_set()),
            final(self).wf(),
            final(self).edges() == old(self).edges().filter(
                |e: (usize, usize)| keys@.contains(e.0) && keys@.contains(e.1),
            ),
    {
        let rev_sorted_keys = sorted_descending(keys);
        assert(rev_sorted_keys@.to_set() =~= keys@.to_set());
        self.unchecked_keep_only(rev_sorted_keys.as_slice());
    }

    /// Consuming form of [`DependencyGraph::keep_only`].
    pub fn kept_only(self, keys: &[usize]) -> (r: Self)
        requires
            self.wf(),
        ensures
            r@ == kept_nodes(self@, keys@.to_set()),
            r.wf(),
            r.edges() == self.edges().filter(
                |e: (usize, usize)| keys@.contains(e.0) && keys@.contains(e.1),
            ),
    {
        let mut this = self;
        this.keep_only(keys);
        this
    }

    /// Just like [`DependencyGraph::keep_only`], but the keys must be sorted in
    /// descending order.
    pub fn unchecked_keep_only(&mut self, rev_sorted_keys: &[usize])
        requires
            old(self).wf(),
            is_descending(rev_sorted_keys@),
        ensures
            final(self)@ == kept_nodes(old(self)@, rev_sorted_keys@.to_set()),
            final(self).wf(),
            final(self).edges() == old(self).edges().filter(
                |e: (usize, usize)|
                    rev_sorted_keys@.contains(e.0) && rev_sorted_keys@.contains(e.1),
            ),
    {
        let ghost keys = rev_sorted_keys@.to_set();
        let ghost v = self@;
        let mask = self.node_mask(rev_sorted_keys);
        let n = self.nodes.len();
        let mut nodes: Vec<Node> = Vec::new();
        let mut i: usize = 0;
        while i < n
            invariant
                n == self.nodes@.len(),
                v == self@,
                mask@.len() == n,
                wf_nodes(v),
                forall|k: int| 0 <= k < n ==> mask@[k] == keys.contains(k as usize),
                i <= n,
                nodes@.len() == i,
                forall|k: int| 0 <= k < i ==> #[trigger] nodes@[k]@ == kept_nodes(v, keys)[k],
            decreases n - i,
        {
            assert(self.nodes@[i as int]@ == v[i as int]);
            assert(forall|j: int| 0 <= j < v[i as int].ins.len() ==> v[i as int].ins[j] < n);
            assert(forall|j: int| 0 <= j < v[i as int].out.len() ==> v[i as int].out[j] < n);
            let node = if mask[i] {
                let ins = kept_entries(&self.nodes[i].ins, &mask, Ghost(keys));
                let out = kept_entries(&self.nodes[i].out, &mask, Ghost(keys));
                Node { ins, out }
            } else {
                Node { ins: Vec::new(), out: Vec::new() }
            };
            assert(node@ =~= kept_nodes(v, keys)[i as int]);
            nodes.push(node);
            i += 1;
        }
        self.nodes = nodes;
        proof {
            assert(self@ =~= kept_nodes(v, keys));
            lemma_kept_nodes(v, keys);
            assert(edges_of(v).filter(|e: (usize, usize)| keys.contains(e.0) && keys.contains(e.1))
                =~= edges_of(v).filter(
                |e: (usize, usize)|
                    rev_sorted_keys@.contains(e.0) && rev_sorted_keys@.contains(e.1),
            ));
        }
    }

    /// Consuming form of [`DependencyGraph::unchecked_keep_only`].
    pub fn unchecked_kept_only(self, rev_sorted_keys: &[usize]) -> (r: Self)
        requires
            self.wf(),
            is_descending(rev_sorted_keys@),
        ensures
            r@ == kept_nodes(self@, rev_sorted_keys@.to_set()),
            r.wf(),
            r.edges() == self.edges().filter(
                |e: (usize, usize)|
                    rev_sorted_keys@.contains(e.0) && rev_sorted_keys@.contains(e.1),
            ),
    {
        let mut this = self;
        this.unchecked_keep_only(rev_sorted_keys);
        this
    }

    /// Sorts the keys in topological order based on the dependencies recorded
    /// in the graph. Each key appears once, whatever its number of occurrences
    /// in `keys`. Keys that are not nodes of the graph have no dependencies.
    /// Where the graph has cycles, it breaks them on the smallest key.
    pub fn topo_sort(&self, keys: &[usize]) -> (r: Vec<usize>)
        requires
            self.wf(),
        ensures
            r@ == topo_order(self.edges(), keys@.to_set()),
    {
        let rev_sorted_keys = sorted_descending(keys);
        assert(rev_sorted_keys@.to_set() =~= keys@.to_set());
        self.unchecked_topo_sort(rev_sorted_keys)
    }

    /// Just like [`DependencyGraph::topo_sort`], but the keys must be sorted in
    /// descending order.
    ///
    /// Kahn's algorithm: each key tracks how many of its incoming neighbours
    /// are still to be emitted, the keys without any (the orphans) wait in
    /// descending order so that the smallest comes first, and when there is
    /// no orphan the smallest remaining key is emitted to break a cycle.
    pub fn unchecked_topo_sort(&self, rev_sorted_keys: Vec<usize>) -> (r: Vec<usize>)
        requires
            self.wf(),
            is_descending(rev_sorted_keys@),
        ensures
            r@ == topo_order(self.edges(), rev_sorted_keys@.to_set()),
    {
        let ghost e = self.edges();
        let ghost all = rev_sorted_keys@.to_set();
        let keys = ascending_distinct(&rev_sorted_keys);
        let n = self.nodes.len();
        let mut live = self.node_mask(keys.as_slice());
        let ghost mut rem: Set<usize> = all;
        proof {
            assert(keys@.to_set() =~= all);
            lemma_ascending_no_duplicates(keys@);
            keys@.unique_seq_to_set();
        }
        let mut indeg: Vec<usize> = Vec::new();
        let mut k: usize = 0;
        while k < n
            invariant
                self.wf(),
                n == self@.len(),
                k <= n,
                indeg@.len() == k,
                live@.len() == n,
                forall|i: int| 0 <= i < n ==> live@[i] == rem.contains(i as usize),
                forall|i: int|
                    0 <= i < k && rem.contains(i as usize) ==> #[trigger] indeg@[i] == count_in(
                        self@[i].ins,
                        rem,
                    ),
            decreases n - k,
        {
            if live[k] {
                let d = self.live_in_degree(&live, k, Ghost(rem));
                indeg.push(d);
            } else {
                indeg.push(0);
            }
            k += 1;
        }
        let mut orphans: Vec<usize> = Vec::new();
        let mut i: usize = keys.len();
        while i > 0
            invariant
                i <= keys@.len(),
                is_strictly_ascending(keys@),
                keys@.to_set() == rem,
                indeg@.len() == n,
                is_strictly_descending(orphans@),
                forall|t: int| 0 <= t < orphans@.len() ==> exists|j: int|
                    i <= j < keys@.len() && keys@[j] == #[trigger] orphans@[t],
                forall|x: usize|
                    orphans@.contains(x) <==> (keys@.subrange(i as int, keys@.len() as int).contains(x) && (x
                        >= n || indeg@[x as int] == 0)),
            decreases i,
        {
            i -= 1;
            let x = keys[i];
            let ghost o0 = orphans@;
            if x >= n || indeg[x] == 0 {
                orphans.push(x);
                proof {
                    assert forall|a: int, b: int| 0 <= a < b < orphans@.len() implies orphans@[a]
                        > orphans@[b] by {
                        if b == o0.len() {
                            let j = choose|j: int| i + 1 <= j < keys@.len() && keys@[j] == o0[a];
                        }
                    }
                }
            }
            proof {
                let s0 = keys@.subrange(i + 1, keys@.len() as int);
                let s1 = keys@.subrange(i as int, keys@.len() as int);
                assert(s1 =~= seq![x] + s0);
                assert forall|t: int| 0 <= t < orphans@.len() implies exists|j: int|
                    i <= j < keys@.len() && keys@[j] == #[trigger] orphans@[t] by {
                    if t < o0.len() {
                        let j = choose|j: int| i + 1 <= j < keys@.len() && keys@[j] == o0[t];
                        assert(keys@[j] == orphans@[t]);
                    } else {
                        assert(keys@[i as int] == orphans@[t]);
                    }
                }
                assert forall|z: usize| orphans@.contains(z) <==> (s1.contains(z) && (z >= n
                    || indeg@[z as int] == 0)) by {
                    if s1.contains(z) && z != x {
                        let j = choose|j: int| 0 <= j < s1.len() && s1[j] == z;
                        assert(s0[j - 1] == z);
                    }
                    if s0.contains(z) {
                        let j = choose|j: int| 0 <= j < s0.len() && s0[j] == z;
                        assert(s1[j + 1] == z);
                    }
                    assert(s1[0] == x);
                    if orphans@ != o0 {
                        assert(orphans@ == o0.push(x));
                        if o0.contains(z) {
                            let j = choose|j: int| 0 <= j < o0.len() && o0[j] == z;
                            assert(orphans@[j] == z);
                        }
                        if orphans@.contains(z) && z != x {
                            let j = choose|j: int| 0 <= j < orphans@.len() && orphans@[j] == z;
                            assert(o0[j] == z);
                        }
                        assert(orphans@[o0.len() as int] == x);
                    }
                }
            }
        }
        let mut sorted: Vec<usize> = Vec::new();
        let mut cursor: usize = 0;
        proof {
            assert(keys@.subrange(0, keys@.len() as int) =~= keys@);
            assert(sorted@ + topo_order(e, rem) =~= topo_order(e, all));
        }
        while sorted.len() < keys.len()
            invariant
                self.wf(),
                e == self.edges(),
                n == self@.len(),
                is_strictly_ascending(keys@),
                keys@.to_set() == all,
                all.finite(),
                rem.subset_of(all),
                rem.finite(),
                sorted@.len() + rem.len() == keys@.len(),
                cursor <= keys@.len(),
                forall|j: int| 0 <= j < cursor ==> !rem.contains(#[trigger] keys@[j]),
                live@.len() == n,
                forall|i: int| 0 <= i < n ==> live@[i] == rem.contains(i as usize),
                indeg@.len() == n,
                forall|i: int|
                    0 <= i < n && rem.contains(i as usize) ==> #[trigger] indeg@[i] == count_in(
                        self@[i].ins,
                        rem,
                    ),
                is_strictly_descending(orphans@),
                forall|x: usize|
                    orphans@.contains(x) <==> (rem.contains(x) && (x >= n || indeg@[x as int]
                        == 0)),
                sorted@ + topo_order(e, rem) == topo_order(e, all),
            decreases keys@.len() - sorted@.len(),
        {
            proof {
                self.lemma_orphans_are_free(rem, indeg@, orphans@);
            }
            let ghost sorted0 = sorted@;
            let y: usize;
            if orphans.len() > 0 {
                let ghost o0 = orphans@;
                y = orphans.pop().unwrap();
                proof {
                    lemma_pop_orphan(e, rem, o0);
                    assert(o0.drop_last() == orphans@);
                    assert forall|x: usize| orphans@.contains(x) <==> (rem.remove(y).contains(x) && (x
                        >= n || indeg@[x as int] == 0)) by {
                        assert(o0.contains(x) <==> (rem.contains(x) && (x >= n || indeg@[x as int] == 0)));
                    }
                }
            } else {
                proof {
                    assert forall|x: usize| rem.contains(x) implies x < live@.len() by {
                        assert(!orphans@.contains(x));
                    }
                }
                y = smallest_remaining(&keys, &live, &mut cursor, Ghost(rem));
                proof {
                    lemma_least_unique(rem, y);
                    assert(free_keys(e, rem) =~= Set::<usize>::empty());
                }
            }
            sorted.push(y);
            let ghost rem0 = rem;
            proof {
                self.lemma_emit_counts(rem, y, indeg@);
                rem = rem.remove(y);
            }
            if y < n {
                live[y] = false;
                self.release_successors(y, &live, &mut indeg, &mut orphans, Ghost(rem));
            } else {
                proof {
                    assert forall|i: int|
                        0 <= i < n && rem.contains(i as usize) implies #[trigger] indeg@[i] == count_in(
                        self@[i].ins,
                        rem,
                    ) by {
                        assert(occurrences(Seq::<usize>::empty(), i as usize) == 0);
                    }
                }
            }
            proof {
                lemma_emit(e, rem0, y, sorted0, all);
                assert forall|i: int| 0 <= i < n implies live@[i] == rem.contains(i as usize) by {}
                assert forall|j: int| 0 <= j < cursor implies !rem.contains(#[trigger] keys@[j]) by {}
            }
        }
        proof {
            assert(rem =~= Set::<usize>::empty()) by {
                if !rem.is_empty() {
                    let z = rem.choose();
                    assert(rem.len() > 0);
                }
            }
            assert(sorted@ =~= sorted@ + topo_order(e, rem));
        }
        sorted
    }

    /// Once `y` leaves the keys `rem`, the count of each remaining key drops
    /// by the number of times it follows `y`.
    proof fn lemma_emit_counts(&self, rem: Set<usize>, y: usize, indeg: Seq<usize>)
        requires
            self.wf(),
            rem.contains(y),
            indeg.len() == self@.len(),
            forall|i: int|
                0 <= i < self@.len() && rem.contains(i as usize) ==> #[trigger] indeg[i] == count_in(
                    self@[i].ins,
                    rem,
                ),
        ensures
            forall|i: int|
                0 <= i < self@.len() && rem.remove(y).contains(i as usize) ==> #[trigger] indeg[i]
                    == count_in(self@[i].ins, rem.remove(y)) + occurrences(
                    if y < self@.len() {
                        self@[y as int].out
                    } else {
                        Seq::empty()
                    },
                    i as usize,
                ),
    {
        let n = self@.len();
        assert forall|i: int|
            0 <= i < n && rem.remove(y).contains(i as usize) implies #[trigger] indeg[i] == count_in(
            self@[i].ins,
            rem.remove(y),
        ) + occurrences(if y < n { self@[y as int].out } else { Seq::empty() }, i as usize) by {
            lemma_count_split(self@[i].ins, rem, y);
            if y >= n {
                lemma_occurrences_contains(self@[i].ins, y);
                if self@[i].ins.contains(y) {
                    let j = choose|j: int| 0 <= j < self@[i].ins.len() && self@[i].ins[j] == y;
                    assert(self@[i].ins[j] < n);
                }
                assert(occurrences(Seq::<usize>::empty(), i as usize) == 0);
            } else {
                let b = i as usize;
                assert(occurrences(self@[y as int].out, b) == occurrences(self@[b as int].ins, y));
            }
        }
    }

    /// The number of incoming neighbours of node `k` among the keys `rem`,
    /// which `live` marks.
    fn live_in_degree(&self, live: &Vec<bool>, k: usize, rem: Ghost<Set<usize>>) -> (r: usize)
        requires
            self.wf(),
            k < self@.len(),
            live@.len() == self@.len(),
            forall|i: int| 0 <= i < live@.len() ==> live@[i] == rem@.contains(i as usize),
        ensures
            r == count_in(self@[k as int].ins, rem@),
    {
        let ins = &self.nodes[k].ins;
        assert(ins@ == self@[k as int].ins);
        let mut c: usize = 0;
        let mut j: usize = 0;
        while j < ins.len()
            invariant
                self.wf(),
                k < self@.len(),
                ins@ == self@[k as int].ins,
                j <= ins@.len(),
                live@.len() == self@.len(),
                forall|i: int| 0 <= i < live@.len() ==> live@[i] == rem@.contains(i as usize),
                c == count_in(ins@.subrange(0, j as int), rem@),
                c <= j,
            decreases ins@.len() - j,
        {
            let y = ins[j];
            assert(y < self@.len());
            proof {
                assert(ins@.subrange(0, j + 1) =~= ins@.subrange(0, j as int).push(y));
                lemma_count_push(ins@.subrange(0, j as int), y, rem@);
            }
            if live[y] {
                c += 1;
            }
            j += 1;
        }
        assert(ins@.subrange(0, ins@.len() as int) =~= ins@);
        c
    }

    /// After `y` is emitted: takes `y` off the count of each outgoing
    /// neighbour still to be emitted, and makes orphans of those whose count
    /// drops to zero.
    fn release_successors(
        &self,
        y: usize,
        live: &Vec<bool>,
        indeg: &mut Vec<usize>,
        orphans: &mut Vec<usize>,
        rem: Ghost<Set<usize>>,
    )
        requires
            self.wf(),
            y < self@.len(),
            live@.len() == self@.len(),
            forall|i: int| 0 <= i < live@.len() ==> live@[i] == rem@.contains(i as usize),
            old(indeg)@.len() == self@.len(),
            forall|i: int|
                0 <= i < self@.len() && rem@.contains(i as usize) ==> #[trigger] old(indeg)@[i]
                    == count_in(self@[i].ins, rem@) + occurrences(self@[y as int].out, i as usize),
            is_strictly_descending(old(orphans)@),
            forall|x: usize|
                old(orphans)@.contains(x) <==> (rem@.contains(x) && (x >= self@.len()
                    || old(indeg)@[x as int] == 0)),
        ensures
            final(indeg)@.len() == self@.len(),
            forall|i: int|
                0 <= i < self@.len() && rem@.contains(i as usize) ==> #[trigger] final(indeg)@[i]
                    == count_in(self@[i].ins, rem@),
            is_strictly_descending(final(orphans)@),
            forall|x: usize|
                final(orphans)@.contains(x) <==> (rem@.contains(x) && (x >= self@.len()
                    || final(indeg)@[x as int] == 0)),
    {
        let n = self.nodes.len();
        let out = &self.nodes[y].out;
        assert(out@ == self@[y as int].out);
        let mut j: usize = 0;
        while j < out.len()
            invariant
                self.wf(),
                n == self@.len(),
                y < n,
                out@ == self@[y as int].out,
                j <= out@.len(),
                live@.len() == n,
                forall|i: int| 0 <= i < n ==> live@[i] == rem@.contains(i as usize),
                indeg@.len() == n,
                forall|i: int|
                    0 <= i < n && rem@.contains(i as usize) ==> #[trigger] indeg@[i] + occurrences(
                        out@.subrange(0, j as int),
                        i as usize,
                    ) == count_in(self@[i].ins, rem@) + occurrences(out@, i as usize),
                is_strictly_descending(orphans@),
                forall|x: usize|
                    orphans@.contains(x) <==> (rem@.contains(x) && (x >= n || indeg@[x as int]
                        == 0)),
            decreases out@.len() - j,
        {
            let x = out[j];
            assert(x < n);
            proof {
                assert(out@.subrange(0, j + 1) =~= out@.subrange(0, j as int).push(x));
                assert forall|i: int| 0 <= i < n implies #[trigger] occurrences(out@.subrange(0, j + 1), i as usize)
                    == occurrences(out@.subrange(0, j as int), i as usize) + if i == x {
                    1nat
                } else {
                    0nat
                } by {
                    lemma_count_push(out@.subrange(0, j as int), x, set![i as usize]);
                }
                lemma_count_prefix(out@, j + 1, set![x]);
            }
            if live[x] {
                proof {
                    assert(rem@.contains(x));
                    assert(indeg@[x as int] + occurrences(out@.subrange(0, j as int), x) == count_in(
                        self@[x as int].ins,
                        rem@,
                    ) + occurrences(out@, x));
                    assert(occurrences(out@.subrange(0, j + 1), x) == occurrences(
                        out@.subrange(0, j as int),
                        x,
                    ) + 1);
                }
                let ghost o0 = orphans@;
                let ghost d0 = indeg@;
                indeg[x] = indeg[x] - 1;
                if indeg[x] == 0 {
                    insert_descending(orphans, x);
                }
                proof {
                    lemma_orphan_update(o0, orphans@, d0, indeg@, rem@, n as nat, x);
                }
            }
            j += 1;
        }
        assert(out@.subrange(0, out@.len() as int) =~= out@);
    }

    /// The orphans are exactly the free keys.
    proof fn lemma_orphans_are_free(&self, rem: Set<usize>, indeg: Seq<usize>, orphans: Seq<usize>)
        requires
            self.wf(),
            indeg.len() == self@.len(),
            forall|i: int|
                0 <= i < self@.len() && rem.contains(i as usize) ==> #[trigger] indeg[i] == count_in(
                    self@[i].ins,
                    rem,
                ),
            forall|x: usize|
                orphans.contains(x) <==> (rem.contains(x) && (x >= self@.len() || indeg[x as int]
                    == 0)),
        ensures
            forall|x: usize| orphans.contains(x) <==> free_keys(self.edges(), rem).contains(x),
    {
        assert forall|x: usize| orphans.contains(x) <==> free_keys(self.edges(), rem).contains(x) by {
            if rem.contains(x) {
                self.lemma_free_count(rem, x);
            }
        }
    }

    /// A key is free exactly when none of its incoming neighbours is among
    /// the keys.
    proof fn lemma_free_count(&self, rem: Set<usize>, x: usize)
        requires
            self.wf(),
        ensures
            is_free(self.edges(), rem, x) == (x >= self@.len() || count_in(self@[x as int].ins, rem)
                == 0),
    {
        let v = self@;
        if x < v.len() {
            lemma_count_zero(v[x as int].ins, rem);
        }
        if is_free(self.edges(), rem, x) {
            if x < v.len() {
                assert forall|j: int| 0 <= j < v[x as int].ins.len() implies !rem.contains(
                    #[trigger] v[x as int].ins[j],
                ) by {
                    let y = v[x as int].ins[j];
                    assert(y < v.len());
                    if rem.contains(y) {
                        assert(v[x as int].ins.contains(y));
                        assert(v[y as int].out.contains(x));
                        assert(self.edges().contains((y, x)));
                    }
                }
            }
        } else {
            let y = choose|y: usize| rem.contains(y) && self.edges().contains((y, x));
            assert(v[y as int].out.contains(x));
            let t = choose|t: int| 0 <= t < v[y as int].out.len() && v[y as int].out[t] == x;
            assert(x < v.len());
            assert(v[x as int].ins.contains(y));
            let j = choose|j: int| 0 <= j < v[x as int].ins.len() && v[x as int].ins[j] == y;
        }
    }

    /// For each node, whether its index is among `keys`.
    fn node_mask(&self, keys: &[usize]) -> (m: Vec<bool>)
        ensures
            m@.len() == self@.len(),
            forall|i: int| 0 <= i < m@.len() ==> m@[i] == keys@.contains(i as usize),
    {
        let n = self.nodes.len();
        let mut m: Vec<bool> = Vec::new();
        while m.len() < n
            invariant
                m@.len() <= n,
                forall|i: int| 0 <= i < m@.len() ==> !m@[i],
            decreases n - m@.len(),
        {
            m.push(false);
        }
        let mut j: usize = 0;
        while j < keys.len()
            invariant
                m@.len() == n,
                n == self@.len(),
                j <= keys@.len(),
                forall|i: int| 0 <= i < n ==> m@[i] == keys@.subrange(0, j as int).contains(i as usize),
            decreases keys@.len() - j,
        {
            let k = keys[j];
            if k < n {
                m[k] = true;
            }
            proof {
                assert forall|i: int| 0 <= i < n implies m@[i] == keys@.subrange(0, j + 1).contains(
                    i as usize,
                ) by {
                    let s0 = keys@.subrange(0, j as int);
                    let s1 = keys@.subrange(0, j + 1);
                    assert(s1 =~= s0.push(k));
                    if s0.contains(i as usize) {
                        let t = choose|t: int| 0 <= t < s0.len() && s0[t] == i as usize;
                        assert(s1[t] == i as usize);
                    }
                    if s1.contains(i as usize) && i != k {
                        let t = choose|t: int| 0 <= t < s1.len() && s1[t] == i as usize;
                        assert(s0[t] == i as usize);
                    }
                    if i == k {
                        assert(s1[j as int] == k);
                    }
                }
            }
            j += 1;
        }
        assert(keys@.subrange(0, keys@.len() as int) =~= keys@);
        m
    }
}

/// The entries of `v` that are among `keys`, in their order; `mask` tells,
/// for each node, whether it is among `keys`.
fn kept_entries(v: &Vec<usize>, mask: &Vec<bool>, keys: Ghost<Set<usize>>) -> (r: Vec<usize>)
    requires
        forall|j: int| 0 <= j < v@.len() ==> v@[j] < mask@.len(),
        forall|k: int| 0 <= k < mask@.len() ==> mask@[k] == keys@.contains(k as usize),
    ensures
        r@ == v@.filter(|y: usize| keys@.contains(y)),
{
    let mut r: Vec<usize> = Vec::new();
    let mut i: usize = 0;
    while i < v.len()
        invariant
            i <= v@.len(),
            forall|j: int| 0 <= j < v@.len() ==> v@[j] < mask@.len(),
            forall|k: int| 0 <= k < mask@.len() ==> mask@[k] == keys@.contains(k as usize),
            r@ == v@.subrange(0, i as int).filter(|y: usize| keys@.contains(y)),
        decreases v@.len() - i,
    {
        let y = v[i];
        if mask[y] {
            r.push(y);
        }
        proof {
            let s1 = v@.subrange(0, i + 1);
            assert(s1.drop_last() =~= v@.subrange(0, i as int));
            assert(s1.last() == y);
            reveal(Seq::filter);
        }
        i += 1;
    }
    assert(v@.subrange(0, v@.len() as int) =~= v@);
    r
}

/// The smallest key of `rem`, found by moving `cursor` past the keys that
/// were emitted already.
fn smallest_remaining(
    keys: &Vec<usize>,
    live: &Vec<bool>,
    cursor: &mut usize,
    rem: Ghost<Set<usize>>,
) -> (y: usize)
    requires
        is_strictly_ascending(keys@),
        rem@.subset_of(keys@.to_set()),
        rem@.finite(),
        rem@.len() > 0,
        *old(cursor) <= keys@.len(),
        forall|j: int| 0 <= j < *old(cursor) ==> !rem@.contains(#[trigger] keys@[j]),
        forall|i: int| 0 <= i < live@.len() ==> live@[i] == rem@.contains(i as usize),
        forall|x: usize| rem@.contains(x) ==> x < live@.len(),
    ensures
        *final(cursor) <= keys@.len(),
        forall|j: int| 0 <= j < *final(cursor) ==> !rem@.contains(#[trigger] keys@[j]),
        is_least(rem@, y),
{
    let n = live.len();
    while *cursor < keys.len() && (keys[*cursor] >= n || !live[keys[*cursor]])
        invariant
            *cursor <= keys@.len(),
            n == live@.len(),
            forall|i: int| 0 <= i < n ==> live@[i] == rem@.contains(i as usize),
            forall|x: usize| rem@.contains(x) ==> x < n,
            forall|j: int| 0 <= j < *cursor ==> !rem@.contains(#[trigger] keys@[j]),
        decreases keys@.len() - *cursor,
    {
        *cursor = *cursor + 1;
    }
    proof {
        assert(*cursor < keys@.len()) by {
            if *cursor == keys@.len() {
                let z = rem@.choose();
                assert(rem@.contains(z)) by {
                    if !rem@.contains(z) {
                        assert(rem@ =~= Set::<usize>::empty());
                    }
                }
                assert(keys@.to_set().contains(z));
                let j = choose|j: int| 0 <= j < keys@.len() && keys@[j] == z;
            }
        }
    }
    let y = keys[*cursor];
    proof {
        assert(rem@.contains(y));
        assert forall|z: usize| #[trigger] rem@.contains(z) implies y <= z by {
            assert(keys@.to_set().contains(z));
            let j = choose|j: int| 0 <= j < keys@.len() && keys@[j] == z;
            if j > *cursor {
                assert(keys@[*cursor as int] < keys@[j]);
            }
        }
    }
    y
}

/// Emitting the next key of `rem` extends the order emitted so far.
proof fn lemma_emit(
    e: Set<(usize, usize)>,
    rem: Set<usize>,
    y: usize,
    sorted: Seq<usize>,
    all: Set<usize>,
)
    requires
        rem.finite(),
        rem.contains(y),
        y == next_key(e, rem),
        sorted + topo_order(e, rem) == topo_order(e, all),
    ensures
        sorted.push(y) + topo_order(e, rem.remove(y)) == topo_order(e, all),
{
    assert(rem.len() > 0);
    assert(topo_order(e, rem) == seq![y] + topo_order(e, rem.remove(y)));
    assert(sorted.push(y) + topo_order(e, rem.remove(y)) =~= sorted + topo_order(e, rem));
}

/// Lowering the count of `x` by one, and making an orphan of it when the
/// count reaches zero, keeps the orphans those keys whose count is zero.
proof fn lemma_orphan_update(
    o0: Seq<usize>,
    o1: Seq<usize>,
    d0: Seq<usize>,
    d1: Seq<usize>,
    rem: Set<usize>,
    n: nat,
    x: usize,
)
    requires
        x < n,
        d0.len() == n,
        rem.contains(x),
        d0[x as int] >= 1,
        d1 == d0.update(x as int, (d0[x as int] - 1) as usize),
        forall|z: usize| o0.contains(z) <==> (rem.contains(z) && (z >= n || d0[z as int] == 0)),
        d1[x as int] == 0 ==> forall|z: usize| o1.contains(z) <==> o0.contains(z) || z == x,
        d1[x as int] != 0 ==> o1 == o0,
    ensures
        forall|z: usize| o1.contains(z) <==> (rem.contains(z) && (z >= n || d1[z as int] == 0)),
{
    assert forall|z: usize| o1.contains(z) <==> (rem.contains(z) && (z >= n || d1[z as int] == 0)) by {
        assert(o0.contains(z) <==> (rem.contains(z) && (z >= n || d0[z as int] == 0)));
        assert(o0.contains(x) <==> (rem.contains(x) && (x >= n || d0[x as int] == 0)));
        if z != x && z < n {
            assert(d1[z as int] == d0[z as int]);
        }
    }
}

/// The last, and so smallest, orphan is the key emitted next.
proof fn lemma_pop_orphan(e: Set<(usize, usize)>, rem: Set<usize>, orphans: Seq<usize>)
    requires
        rem.finite(),
        orphans.len() > 0,
        is_strictly_descending(orphans),
        forall|x: usize| orphans.contains(x) <==> free_keys(e, rem).contains(x),
    ensures
        next_key(e, rem) == orphans.last(),
        rem.contains(orphans.last()),
        forall|x: usize|
            orphans.drop_last().contains(x) <==> orphans.contains(x) && x != orphans.last(),
{
    let y = orphans.last();
    let f = free_keys(e, rem);
    assert(orphans.contains(y)) by {
        assert(orphans[orphans.len() - 1] == y);
    }
    assert forall|z: usize| #[trigger] f.contains(z) implies y <= z by {
        assert(orphans.contains(z));
        let j = choose|j: int| 0 <= j < orphans.len() && orphans[j] == z;
        if j < orphans.len() - 1 {
            assert(orphans[j] > orphans[orphans.len() - 1]);
        }
    }
    assert(is_least(f, y));
    lemma_least_unique(f, y);
    assert(!f.is_empty());
    assert forall|x: usize|
        orphans.drop_last().contains(x) <==> orphans.contains(x) && x != y by {
        let d = orphans.drop_last();
        if orphans.contains(x) && x != y {
            let j = choose|j: int| 0 <= j < orphans.len() && orphans[j] == x;
            assert(d[j] == x);
        }
        if d.contains(x) {
            let j = choose|j: int| 0 <= j < d.len() && d[j] == x;
            assert(orphans[j] == x);
            assert(orphans[j] > orphans[orphans.len() - 1]);
        }
    }
}

/// Whether the graph sorts `sorted` into the very order in which it is given.
/// The keys are put in order before they are sorted topologically, so the
/// answer does not depend on how the slice happens to be ordered, only on
/// whether that order is the topological one.
pub fn assert_valid_sort(graph: &DependencyGraph, sorted: &[usize]) -> (r: bool)
    requires
        graph.wf(),
    ensures
        r == (topo_order(graph.edges(), sorted@.to_set()) == sorted@),
{
    let out = graph.topo_sort(sorted);
    if out.len() != sorted.len() {
        return false;
    }
    let mut i: usize = 0;
    while i < out.len()
        invariant
            out@ == topo_order(graph.edges(), sorted@.to_set()),
            out@.len() == sorted@.len(),
            i <= out@.len(),
            forall|t: int| 0 <= t < i ==> out@[t] == sorted@[t],
        decreases out@.len() - i,
    {
        if out[i] != sorted[i] {
            assert(out@[i as int] != sorted@[i as int]);
            return false;
        }
        i += 1;
    }
    assert(out@ =~= sorted@);
    true
}

/// Sorting a graph without dependencies puts the keys in ascending order,
/// each once.
pub proof fn lemma_sort_without_dependencies(g: DependencyGraph, keys: Seq<usize>)
    requires
        g.edges() == Set::<(usize, usize)>::empty(),
    ensures
        is_strictly_ascending(topo_order(g.edges(), keys.to_set())),
        forall|x: usize| #[trigger] topo_order(g.edges(), keys.to_set()).contains(x) <==> keys.contains(x),
{
    vstd::seq_lib::seq_to_set_is_finite(keys);
    lemma_topo_order_without_edges(g.edges(), keys.to_set());
    lemma_topo_order_permutes(g.edges(), keys.to_set());
}

/// Sorting a subset of the keys that `keep_only` retained gives the same
/// order as sorting that subset in the graph as it was before: dropping the
/// other nodes removes no dependency between retained keys.
pub proof fn lemma_keep_only_then_sort(g: DependencyGraph, kept: Seq<usize>, keys: Seq<usize>)
    requires
        g.wf(),
        keys.to_set().subset_of(kept.to_set()),
    ensures
        topo_order(edges_of(kept_nodes(g@, kept.to_set())), keys.to_set()) == topo_order(
            g.edges(),
            keys.to_set(),
        ),
{
    lemma_kept_nodes(g@, kept.to_set());
    vstd::seq_lib::seq_to_set_is_finite(keys);
    let e1 = edges_of(kept_nodes(g@, kept.to_set()));
    assert forall|a: usize, b: usize|
        keys.to_set().contains(a) && keys.to_set().contains(b) implies (e1.contains((a, b))
        <==> g.edges().contains((a, b))) by {
        assert(kept.to_set().contains(a) && kept.to_set().contains(b));
    }
    lemma_topo_order_local(e1, g.edges(), keys.to_set());
}

/// The order depends only on the dependencies and on the set of keys: not on
/// the order in which the dependencies were inserted, nor on the order or the
/// repetition of the keys, nor on any earlier call.
pub proof fn lemma_sort_deterministic(
    g1: DependencyGraph,
    g2: DependencyGraph,
    keys1: Seq<usize>,
    keys2: Seq<usize>,
)
    requires
        g1.edges() == g2.edges(),
        keys1.to_set() == keys2.to_set(),
    ensures
        topo_order(g1.edges(), keys1.to_set()) == topo_order(g2.edges(), keys2.to_set()),
{
}

/// Inserting two dependencies in either order records the same dependencies.
pub proof fn lemma_insertion_order(v: Seq<NodeView>, a: usize, b: usize, c: usize, d: usize)
    requires
        wf_nodes(v),
        a < usize::MAX,
        b < usize::MAX,
        c < usize::MAX,
        d < usize::MAX,
    ensures
        edges_of(with_edge(with_edge(v, a, b), c, d)) == edges_of(
            with_edge(with_edge(v, c, d), a, b),
        ),
{
    lemma_with_edge_wf(v, a, b);
    lemma_with_edge_wf(v, c, d);
    lemma_with_edge_wf(with_edge(v, a, b), c, d);
    lemma_with_edge_wf(with_edge(v, c, d), a, b);
    assert(edges_of(v).insert((a, b)).insert((c, d)) =~= edges_of(v).insert((c, d)).insert((a, b)));
}

} // verus!
