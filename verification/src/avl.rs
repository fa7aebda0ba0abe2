//! An ordered map kept as a height-balanced binary search tree.

pub mod tree;

pub use crate::avl::tree::{AvlNode, AvlTree};

use crate::avl::tree::{
    ascending, clone_tree, lemma_height_le_len, lemma_listed_len, lemma_stored_height,
    lemma_tree_entries, lists, tree_cloned, tree_entries, tree_height, tree_map, tree_wf,
};
use crate::order::TotalOrder;
use vstd::prelude::*;

verus! {

/// An ordered map from keys to values.
#[derive(Debug, PartialEq)]
pub struct AvlTreeMap<K: TotalOrder, V> {
    root: AvlTree<K, V>,
}

impl<K: TotalOrder, V> View for AvlTreeMap<K, V> {
    type V = Map<K::V, V>;

    closed spec fn view(&self) -> Map<K::V, V> {
        tree_map(self.root)
    }
}

impl<K: TotalOrder + Clone, V: Clone> AvlTreeMap<K, V> {
    /// This map's tree has the shape and the stored heights of the tree
    /// of `source`, and each of its keys and values is a clone of the one in
    /// the same place there.
    pub closed spec fn is_clone_of(&self, source: &Self) -> bool {
        tree_cloned(source.root, self.root)
    }
}

impl<K: TotalOrder + Clone, V: Clone> Clone for AvlTreeMap<K, V> {
    /// A copy of the tree, node by node.
    fn clone(&self) -> (copy: Self)
        ensures
            copy.is_clone_of(self),
    {
        Self { root: clone_tree(&self.root) }
    }
}

/// The map that putting the entries of `s` into `m` gives, first to last.
pub open spec fn with_entries<K: TotalOrder, V>(m: Map<K::V, V>, s: Seq<(K, V)>) -> Map<K::V, V>
    decreases s.len(),
{
    if s.len() == 0 {
        m
    } else {
        with_entries(m, s.drop_last()).insert(s.last().0@, s.last().1)
    }
}

impl<K: TotalOrder, V> AvlTreeMap<K, V> {
    /// The tree below is a balanced search tree.
    pub closed spec fn well_formed(&self) -> bool {
        tree_wf(self.root)
    }

    /// The entries in the order in which `iter` gives them.
    pub closed spec fn entries(&self) -> Seq<(K::V, V)> {
        tree_entries(self.root)
    }

    /// Iteration is strictly ascending and lists exactly the current
    /// entries, of which there are finitely many.
    pub proof fn lemma_entries(&self)
        requires
            self.well_formed(),
        ensures
            ascending::<K, V>(self.entries()),
            lists(self.entries(), self@),
            self@.dom().finite(),
            self@.dom().len() == self.entries().len(),
    {
        lemma_tree_entries(self.root);
        lemma_listed_len::<K, V>(tree_entries(self.root), tree_map(self.root));
    }

    /// The empty map.
    pub fn new() -> (map: Self)
        ensures
            map.well_formed(),
            map@ == Map::<K::V, V>::empty(),
            map.entries() == Seq::<(K::V, V)>::empty(),
    {
        Self { root: None }
    }

    /// Puts `value` under `key`, in place of the value that was there if
    /// the key was present.
    pub fn insert(&mut self, key: K, value: V)
        requires
            old(self).well_formed(),
            old(self)@.dom().len() < usize::MAX,
        ensures
            final(self).well_formed(),
            final(self)@ == old(self)@.insert(key@, value),
    {
        proof {
            self.lemma_entries();
            lemma_height_le_len(self.root);
            lemma_stored_height(self.root);
        }
        match self.root.take() {
            Some(mut node) => {
                node.insert(key, value);
                self.root = Some(node);
            },
            None => {
                self.root = Some(Box::new(AvlNode::new(key, value)));
                proof {
                    assert(self@ =~= Map::<K::V, V>::empty().insert(key@, value));
                }
            },
        }
    }

    /// Removes `key` and its value, if the key is present.
    pub fn delete(&mut self, key: &K)
        requires
            old(self).well_formed(),
        ensures
            final(self).well_formed(),
            final(self)@ == old(self)@.remove(key@),
    {
        match self.root.take() {
            Some(node) => {
                self.root = (*node).delete(key);
            },
            None => {
                proof {
                    assert(self@ =~= self@.remove(key@));
                }
            },
        }
    }

    /// The value under `key`, if the key is present.
    pub fn search(&self, key: &K) -> (found: Option<&V>)
        requires
            self.well_formed(),
        ensures
            match found {
                Some(v) => self@.contains_key(key@) && self@[key@] == *v,
                None => !self@.contains_key(key@),
            },
    {
        match &self.root {
            Some(node) => node.search(key),
            None => None,
        }
    }

    /// An iterator over the entries, in ascending order of the keys.
    pub fn iter<'a>(&'a self) -> (it: AvlTreeSetIter<'a, K, V>)
        ensures
            it.remaining() == self.entries(),
    {
        AvlTreeSetIter { prev_nodes: Vec::new(), current_tree: &self.root }
    }

    /// The map that holds `records`, put in first to last: of two records
    /// with one key the later stays.
    pub fn from_iter(records: Vec<(K, V)>) -> (map: Self)
        ensures
            map.well_formed(),
            map@ == with_entries(Map::<K::V, V>::empty(), records@),
    {
        let mut map = Self::new();
        let ghost all = records@;
        let ghost n = all.len() as int;
        let mut rest = records;
        let mut stack: Vec<(K, V)> = Vec::new();
        while rest.len() > 0
            invariant
                rest.len() + stack.len() == n,
                forall|i: int| 0 <= i < rest.len() ==> rest@[i] == all[i],
                forall|i: int| 0 <= i < stack.len() ==> stack@[i] == all[n - 1 - i],
            decreases rest.len(),
        {
            let kv = rest.pop().unwrap();
            stack.push(kv);
        }
        proof {
            assert(all.take(0) =~= Seq::<(K, V)>::empty());
        }
        while stack.len() > 0
            invariant
                stack.len() <= n,
                n == all.len(),
                n <= usize::MAX,
                forall|i: int| 0 <= i < stack.len() ==> stack@[i] == all[n - 1 - i],
                map.well_formed(),
                map@ == with_entries(Map::<K::V, V>::empty(), all.take(n - stack.len())),
                map@.dom().finite(),
                map@.dom().len() <= n - stack.len(),
            decreases stack.len(),
        {
            let ghost done = n - stack.len();
            let (key, value) = stack.pop().unwrap();
            proof {
                assert(all.take(done + 1).drop_last() =~= all.take(done));
                assert(all.take(done + 1).last() == all[done]);
                assert(map@.insert(key@, value).dom() =~= map@.dom().insert(key@));
            }
            map.insert(key, value);
        }
        proof {
            assert(all.take(n) =~= all);
        }
        map
    }
}

/// A walk over a tree's entries in ascending order, part of the way
/// through.
#[derive(Debug)]
pub struct AvlTreeSetIter<'a, K: TotalOrder, V> {
    prev_nodes: Vec<&'a AvlNode<K, V>>,
    current_tree: &'a AvlTree<K, V>,
}

/// The entries that a walk has yet to give once it is done with the subtree
/// it stands in: for each node it came down from to the left, innermost
/// first, the node's own entry and those of its right subtree.
pub open spec fn pending_entries<K: TotalOrder, V>(nodes: Seq<&AvlNode<K, V>>) -> Seq<(K::V, V)>
    decreases nodes.len(),
{
    if nodes.len() == 0 {
        Seq::empty()
    } else {
        seq![(nodes.last().key@, nodes.last().value)] + tree_entries(nodes.last().right)
            + pending_entries(nodes.drop_last())
    }
}

impl<'a, K: TotalOrder, V> AvlTreeSetIter<'a, K, V> {
    /// The entries that the walk has yet to give, in the order in which it
    /// gives them.
    pub closed spec fn remaining(&self) -> Seq<(K::V, V)> {
        tree_entries(*self.current_tree) + pending_entries(self.prev_nodes@)
    }

    /// Gives the next entry and steps past it; `None` when none is left.
    pub fn next(&mut self) -> (item: Option<(&'a K, &'a V)>)
        ensures
            match item {
                Some((k, v)) => {
                    &&& old(self).remaining().len() > 0
                    &&& (k@, *v) == old(self).remaining()[0]
                    &&& final(self).remaining() == old(self).remaining().skip(1)
                },
                None => old(self).remaining().len() == 0 && final(self).remaining().len() == 0,
            },
    {
        loop
            invariant
                self.remaining() == old(self).remaining(),
            decreases tree_height(*self.current_tree),
        {
            let ghost at = *self;
            match self.current_tree {
                None => match self.prev_nodes.pop() {
                    None => {
                        return None;
                    },
                    Some(prev_node) => {
                        self.current_tree = &prev_node.right;
                        proof {
                            assert(at.prev_nodes@.last() == prev_node);
                            assert(self.prev_nodes@ == at.prev_nodes@.drop_last());
                            assert(at.remaining() =~= pending_entries(at.prev_nodes@));
                            assert(self.remaining() =~= at.remaining().skip(1));
                        }
                        return Some((&prev_node.key, &prev_node.value));
                    },
                },
                Some(current_node) => {
                    if current_node.left.is_some() {
                        self.prev_nodes.push(&**current_node);
                        self.current_tree = &current_node.left;
                        proof {
                            assert(self.prev_nodes@.drop_last() =~= at.prev_nodes@);
                            assert(self.prev_nodes@.last() == &**current_node);
                            assert(self.remaining() =~= at.remaining());
                        }
                        continue ;
                    }
                    self.current_tree = &current_node.right;
                    proof {
                        assert(tree_entries(current_node.left) =~= Seq::<(K::V, V)>::empty());
                        assert(self.remaining() =~= at.remaining().skip(1));
                    }
                    return Some((&current_node.key, &current_node.value));
                },
            }
        }
    }
}

} // verus!
