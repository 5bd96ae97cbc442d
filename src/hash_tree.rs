//! A tree with a variable number of branches per node, each branch named by
//! a key, so that a node is reached by a path of keys.

use std::collections::hash_map::Entry;
use std::collections::HashMap;
use std::hash::Hash;
use vstd::prelude::*;
use vstd::std_specs::hash::obeys_key_model;

verus! {

broadcast use vstd::std_specs::hash::group_hash_axioms;

/// A tree with a variable number of branches per node.
///
/// The lookups state their results where the key type's hashing agrees with
/// its equality (`obeys_key_model`), as it does for std's integer types.
#[derive(Debug)]
#[verifier::reject_recursive_types(K)]
pub struct HashTree<K, V> {
    /// The value at the current node.
    pub value: Option<V>,
    /// The branches at the current node.
    pub branches: HashMap<K, HashTree<K, V>>,
}

/// The value of a node that may be missing (a missing node holds none).
pub open spec fn value_of<K, V>(t: Option<HashTree<K, V>>) -> Option<V> {
    match t {
        Some(t) => t.value,
        None => None,
    }
}

/// The branches of a node that may be missing (a missing node has none).
pub open spec fn branches_of<K, V>(t: Option<HashTree<K, V>>) -> Map<K, HashTree<K, V>> {
    match t {
        Some(t) => t.branches@,
        None => Map::empty(),
    }
}

/// The subtree of `t` at `path`, if there is one.
pub open spec fn subtree<K, V>(t: HashTree<K, V>, path: Seq<K>) -> Option<HashTree<K, V>>
    decreases path.len(),
{
    if path.len() == 0 {
        Some(t)
    } else if t.branches@.contains_key(path[0]) {
        subtree(t.branches@[path[0]], path.drop_first())
    } else {
        None
    }
}

/// `n` is the tree `o` (a missing tree is empty) after `value` was put at
/// `path`: the nodes along the path are created where missing, the node at
/// the end takes the value, and nothing else changes.
pub open spec fn is_inserted<K, V>(
    o: Option<HashTree<K, V>>,
    n: HashTree<K, V>,
    path: Seq<K>,
    value: V,
) -> bool
    decreases path.len(),
{
    if path.len() == 0 {
        n.value == Some(value) && n.branches@ == branches_of(o)
    } else {
        let k = path[0];
        &&& n.value == value_of(o)
        &&& n.branches@.contains_key(k)
        &&& n.branches@.remove(k) == branches_of(o).remove(k)
        &&& is_inserted(branches_of(o).get(k), n.branches@[k], path.drop_first(), value)
    }
}

/// `f` is the tree `o` in which the node at `path` was changed into a node
/// that `changed` relates to the node it was: the nodes along the path keep
/// their values and other branches.
pub open spec fn is_changed_at<K, V>(
    o: HashTree<K, V>,
    f: HashTree<K, V>,
    path: Seq<K>,
    changed: spec_fn(HashTree<K, V>, HashTree<K, V>) -> bool,
) -> bool
    decreases path.len(),
{
    if path.len() == 0 {
        changed(o, f)
    } else {
        let k = path[0];
        &&& f.value == o.value
        &&& o.branches@.contains_key(k)
        &&& f.branches@ == o.branches@.insert(k, f.branches@[k])
        &&& is_changed_at(o.branches@[k], f.branches@[k], path.drop_first(), changed)
    }
}

impl<K, V> HashTree<K, V> {
    /// Check if `self` is a leaf of the tree.
    pub fn is_leaf(&self) -> (r: bool)
        ensures
            r == self.branches@.is_empty(),
    {
        self.branches.is_empty()
    }

    /// Check if `self` is a non-leaf node in the tree.
    pub fn is_non_leaf(&self) -> (r: bool)
        ensures
            r == !self.branches@.is_empty(),
    {
        !self.is_leaf()
    }
}

impl<K: Eq + Hash, V> HashTree<K, V> {
    /// Create an empty tree.
    pub fn empty() -> (r: Self)
        ensures
            r.value is None,
            r.branches@ == Map::<K, HashTree<K, V>>::empty(),
    {
        HashTree { value: None, branches: HashMap::new() }
    }

    /// Create a singleton tree.
    pub fn singleton(value: V) -> (r: Self)
        ensures
            r.value == Some(value),
            r.branches@ == Map::<K, HashTree<K, V>>::empty(),
    {
        HashTree { value: Some(value), branches: HashMap::new() }
    }

    /// Get the tree in the current level for the provided `path_segment`.
    pub fn get_at_current_level(&self, path_segment: &K) -> (r: Option<&Self>)
        requires
            obeys_key_model::<K>(),
        ensures
            match r {
                Some(t) => self.branches@.contains_key(*path_segment) && *t == self.branches@[*path_segment],
                None => !self.branches@.contains_key(*path_segment),
            },
    {
        self.branches.get(path_segment)
    }

    /// Get the tree in the current level for the provided `path_segment`.
    pub fn get_at_current_level_mut(&mut self, path_segment: K) -> (r: Option<&mut Self>)
        requires
            obeys_key_model::<K>(),
        ensures
            match r {
                Some(_) => {
                    &&& old(self).branches@.contains_key(path_segment)
                    &&& *r.unwrap() == old(self).branches@[path_segment]
                    &&& final(self).value == old(self).value
                    &&& final(self).branches@ == old(self).branches@.insert(
                        path_segment,
                        *final(r.unwrap()),
                    )
                },
                None => {
                    &&& !old(self).branches@.contains_key(path_segment)
                    &&& final(self).value == old(self).value
                    &&& final(self).branches@ == old(self).branches@
                },
            },
    {
        match self.branches.entry(path_segment) {
            Entry::Occupied(branch) => Some(branch.into_mut()),
            Entry::Vacant(_) => None,
        }
    }

    /// Get the tree at the provided path.
    pub fn get_mut(&mut self, path: Vec<K>) -> (r: Option<&mut Self>)
        requires
            obeys_key_model::<K>(),
        ensures
            match r {
                Some(_) => {
                    &&& subtree(*old(self), path@) == Some(*r.unwrap())
                    &&& is_changed_at(
                        *old(self),
                        *final(self),
                        path@,
                        |a: Self, b: Self| b == *final(r.unwrap()),
                    )
                },
                None => subtree(*old(self), path@) is None && *final(self) == *old(self),
            },
    {
        if self.get(path.as_slice()).is_none() {
            return None;
        }
        Some(self.get_existing_mut(path))
    }

    /// Get the value at the provided path.
    pub fn get_value_mut(&mut self, path: Vec<K>) -> (r: Option<&mut V>)
        requires
            obeys_key_model::<K>(),
        ensures
            match r {
                Some(_) => {
                    &&& value_of(subtree(*old(self), path@)) == Some(*r.unwrap())
                    &&& is_changed_at(
                        *old(self),
                        *final(self),
                        path@,
                        |a: Self, b: Self|
                            b.value == Some(*final(r.unwrap())) && b.branches@ == a.branches@,
                    )
                },
                None => value_of(subtree(*old(self), path@)) is None && *final(self) == *old(self),
            },
    {
        if self.get_value(path.as_slice()).is_none() {
            return None;
        }
        Some(self.get_existing_value_mut(path))
    }

    /// The value at a path that leads to one.
    fn get_existing_value_mut(&mut self, path: Vec<K>) -> (r: &mut V)
        requires
            obeys_key_model::<K>(),
            value_of(subtree(*old(self), path@)) is Some,
        ensures
            value_of(subtree(*old(self), path@)) == Some(*r),
            is_changed_at(
                *old(self),
                *final(self),
                path@,
                |a: Self, b: Self| b.value == Some(*final(r)) && b.branches@ == a.branches@,
            ),
        decreases path@.len(),
    {
        let mut path = path;
        if path.len() == 0 {
            return self.value.as_mut().unwrap();
        }
        let ghost p = path@;
        let first = path.remove(0);
        assert(path@ =~= p.drop_first());
        let branch = self.get_at_current_level_mut(first).unwrap();
        branch.get_existing_value_mut(path)
    }

    /// The tree at a path that leads to one.
    fn get_existing_mut(&mut self, path: Vec<K>) -> (r: &mut Self)
        requires
            obeys_key_model::<K>(),
            subtree(*old(self), path@) is Some,
        ensures
            subtree(*old(self), path@) == Some(*r),
            is_changed_at(*old(self), *final(self), path@, |a: Self, b: Self| b == *final(r)),
        decreases path@.len(),
    {
        let mut path = path;
        if path.len() == 0 {
            return self;
        }
        let ghost p = path@;
        let first = path.remove(0);
        assert(path@ =~= p.drop_first());
        let branch = self.get_at_current_level_mut(first).unwrap();
        branch.get_existing_mut(path)
    }

    /// Insert the provided `value` into the tree at the provided `path`.
    pub fn insert(&mut self, path: Vec<K>, value: V)
        requires
            obeys_key_model::<K>(),
        ensures
            is_inserted(Some(*old(self)), *final(self), path@, value),
        decreases path@.len(),
    {
        let mut path = path;
        if path.len() == 0 {
            self.value = Some(value);
            return;
        }
        let ghost p = path@;
        let first = path.remove(0);
        let mut branch = match self.branches.remove(&first) {
            Some(existing_branch) => existing_branch,
            None => Self::empty(),
        };
        let ghost b0 = branch;
        assert(path@ =~= p.drop_first());
        branch.insert(path, value);
        proof {
            assert(is_inserted(old(self).branches@.get(first), branch, p.drop_first(), value)) by {
                if !old(self).branches@.contains_key(first) {
                    lemma_inserted_into_empty(b0, branch, p.drop_first(), value);
                }
            }
        }
        self.branches.insert(first, branch);
        proof {
            assert(self.branches@.remove(first) =~= old(self).branches@.remove(first));
        }
    }

    /// Get the tree at the provided path.
    pub fn get(&self, path: &[K]) -> (r: Option<&Self>)
        requires
            obeys_key_model::<K>(),
        ensures
            match r {
                Some(t) => subtree(*self, path@) == Some(*t),
                None => subtree(*self, path@) is None,
            },
        decreases path@.len(),
    {
        if path.len() == 0 {
            return Some(self);
        }
        match self.branches.get(&path[0]) {
            Some(branch) => {
                let rest = vstd::slice::slice_subrange(path, 1, path.len());
                assert(rest@ =~= path@.drop_first());
                branch.get(rest)
            },
            None => None,
        }
    }

    /// Get the value at the provided path.
    pub fn get_value(&self, path: &[K]) -> (r: Option<&V>)
        requires
            obeys_key_model::<K>(),
        ensures
            match r {
                Some(v) => value_of(subtree(*self, path@)) == Some(*v),
                None => value_of(subtree(*self, path@)) is None,
            },
    {
        match self.get(path) {
            Some(node) => node.value.as_ref(),
            None => None,
        }
    }
}

/// Inserting into an empty tree is inserting into a missing one.
proof fn lemma_inserted_into_empty<K, V>(e: HashTree<K, V>, n: HashTree<K, V>, path: Seq<K>, value: V)
    requires
        e.value is None,
        e.branches@ == Map::<K, HashTree<K, V>>::empty(),
        is_inserted(Some(e), n, path, value),
    ensures
        is_inserted(None, n, path, value),
{
    assert(value_of(Some(e)) == value_of(None::<HashTree<K, V>>));
    assert(branches_of(Some(e)) == branches_of(None::<HashTree<K, V>>));
}

/// After `value` is put at `path`, the value at `path` is `value`.
pub proof fn lemma_insert_then_get<K, V>(
    o: Option<HashTree<K, V>>,
    n: HashTree<K, V>,
    path: Seq<K>,
    value: V,
)
    requires
        is_inserted(o, n, path, value),
    ensures
        value_of(subtree(n, path)) == Some(value),
    decreases path.len(),
{
    if path.len() > 0 {
        lemma_insert_then_get(branches_of(o).get(path[0]), n.branches@[path[0]], path.drop_first(), value);
    }
}

} // verus!
