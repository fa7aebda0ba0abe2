//! The nodes of the balanced search tree, and the operations that keep it
//! ordered and balanced.

use crate::order::{KeyOrder, TotalOrder};
use vstd::prelude::*;

verus! {

/// One node of the tree, with the height of the subtree below it.
#[derive(Debug, PartialEq)]
pub struct AvlNode<K: TotalOrder, V> {
    pub key: K,
    pub value: V,
    pub height: usize,
    pub left: AvlTree<K, V>,
    pub right: AvlTree<K, V>,
}

/// A possibly empty subtree.
pub type AvlTree<K, V> = Option<Box<AvlNode<K, V>>>;

/// The larger of two numbers.
pub open spec fn larger(a: nat, b: nat) -> nat {
    if a >= b {
        a
    } else {
        b
    }
}

/// The number of nodes on the longest path from the root down.
pub open spec fn tree_height<K: TotalOrder, V>(t: AvlTree<K, V>) -> nat
    decreases t,
{
    match t {
        None => 0,
        Some(n) => 1 + larger(tree_height(n.left), tree_height(n.right)),
    }
}

/// The height that the root of `t` has stored.
pub open spec fn stored_height<K: TotalOrder, V>(t: AvlTree<K, V>) -> nat {
    match t {
        None => 0,
        Some(n) => n.height as nat,
    }
}

/// What the tree holds, as a map from key views to values.
pub open spec fn tree_map<K: TotalOrder, V>(t: AvlTree<K, V>) -> Map<K::V, V>
    decreases t,
{
    match t {
        None => Map::empty(),
        Some(n) => tree_map(n.left).union_prefer_right(tree_map(n.right)).insert(
            n.key@,
            n.value,
        ),
    }
}

/// What the tree holds, in the order of an in-order walk.
pub open spec fn tree_entries<K: TotalOrder, V>(t: AvlTree<K, V>) -> Seq<(K::V, V)>
    decreases t,
{
    match t {
        None => Seq::empty(),
        Some(n) => tree_entries(n.left) + seq![(n.key@, n.value)] + tree_entries(n.right),
    }
}

/// Every key of `m` comes before `bound`.
pub open spec fn all_before<K: TotalOrder, V>(m: Map<K::V, V>, bound: K::V) -> bool {
    forall|k: K::V| #[trigger] m.contains_key(k) ==> K::precedes(k, bound)
}

/// Every key of `m` comes after `bound`.
pub open spec fn all_after<K: TotalOrder, V>(m: Map<K::V, V>, bound: K::V) -> bool {
    forall|k: K::V| #[trigger] m.contains_key(k) ==> K::precedes(bound, k)
}

/// The tree is a search tree: at every node the keys on the left come
/// before the node's key, and those on the right after it.
pub open spec fn tree_ordered<K: TotalOrder, V>(t: AvlTree<K, V>) -> bool
    decreases t,
{
    match t {
        None => true,
        Some(n) => {
            &&& tree_ordered(n.left)
            &&& tree_ordered(n.right)
            &&& all_before::<K, V>(tree_map(n.left), n.key@)
            &&& all_after::<K, V>(tree_map(n.right), n.key@)
        },
    }
}

/// Every node stores the height of its subtree, and at every node the two
/// subtrees differ in height by at most one.
pub open spec fn tree_balanced<K: TotalOrder, V>(t: AvlTree<K, V>) -> bool
    decreases t,
{
    match t {
        None => true,
        Some(n) => {
            &&& tree_balanced(n.left)
            &&& tree_balanced(n.right)
            &&& n.height as nat == 1 + larger(tree_height(n.left), tree_height(n.right))
            &&& tree_height(n.left) <= tree_height(n.right) + 1
            &&& tree_height(n.right) <= tree_height(n.left) + 1
        },
    }
}

/// In a balanced tree the root stores the tree's height.
pub proof fn lemma_stored_height<K: TotalOrder, V>(t: AvlTree<K, V>)
    requires
        tree_balanced(t),
    ensures
        stored_height(t) == tree_height(t),
{
}

/// What balance says of a tree's two top levels.
proof fn lemma_balanced_unfold<K: TotalOrder, V>(t: AvlTree<K, V>)
    requires
        tree_balanced(t),
    ensures
        stored_height(t) == tree_height(t),
        t matches Some(n) ==> {
            &&& tree_balanced(n.left)
            &&& tree_balanced(n.right)
            &&& stored_height(n.left) == tree_height(n.left)
            &&& stored_height(n.right) == tree_height(n.right)
            &&& tree_height(t) == 1 + larger(tree_height(n.left), tree_height(n.right))
            &&& tree_height(n.left) <= tree_height(n.right) + 1
            &&& tree_height(n.right) <= tree_height(n.left) + 1
            &&& (n.left matches Some(a) ==> {
                &&& tree_balanced(a.left)
                &&& tree_balanced(a.right)
                &&& stored_height(a.left) == tree_height(a.left)
                &&& stored_height(a.right) == tree_height(a.right)
                &&& tree_height(n.left) == 1 + larger(tree_height(a.left), tree_height(a.right))
                &&& tree_height(a.left) <= tree_height(a.right) + 1
                &&& tree_height(a.right) <= tree_height(a.left) + 1
            })
            &&& (n.right matches Some(b) ==> {
                &&& tree_balanced(b.left)
                &&& tree_balanced(b.right)
                &&& stored_height(b.left) == tree_height(b.left)
                &&& stored_height(b.right) == tree_height(b.right)
                &&& tree_height(n.right) == 1 + larger(tree_height(b.left), tree_height(b.right))
                &&& tree_height(b.left) <= tree_height(b.right) + 1
                &&& tree_height(b.right) <= tree_height(b.left) + 1
            })
        },
{
    reveal_with_fuel(tree_balanced, 3);
    reveal_with_fuel(tree_height, 3);
}

/// The tree is a balanced search tree with the right heights stored.
pub open spec fn tree_wf<K: TotalOrder, V>(t: AvlTree<K, V>) -> bool {
    tree_ordered(t) && tree_balanced(t)
}

impl<K: TotalOrder, V> AvlNode<K, V> {
    /// What the subtree below this node holds.
    pub open spec fn as_map(self) -> Map<K::V, V> {
        tree_map(self.left).union_prefer_right(tree_map(self.right)).insert(self.key@, self.value)
    }

    /// What the subtree below this node holds, in the order of an in-order walk.
    pub open spec fn entries(self) -> Seq<(K::V, V)> {
        tree_entries(self.left) + seq![(self.key@, self.value)] + tree_entries(self.right)
    }

    /// The height of the subtree below this node.
    pub open spec fn spec_height(self) -> nat {
        1 + larger(tree_height(self.left), tree_height(self.right))
    }

    /// The subtree below this node is a search tree.
    pub open spec fn ordered(self) -> bool {
        &&& tree_ordered(self.left)
        &&& tree_ordered(self.right)
        &&& all_before::<K, V>(tree_map(self.left), self.key@)
        &&& all_after::<K, V>(tree_map(self.right), self.key@)
    }

    /// The subtree below this node is balanced, with the right heights stored.
    pub open spec fn balanced(self) -> bool {
        &&& tree_balanced(self.left)
        &&& tree_balanced(self.right)
        &&& self.height as nat == self.spec_height()
        &&& tree_height(self.left) <= tree_height(self.right) + 1
        &&& tree_height(self.right) <= tree_height(self.left) + 1
    }

    /// The subtree below this node is a balanced search tree with the
    /// right heights stored.
    pub open spec fn well_formed(self) -> bool {
        self.ordered() && self.balanced()
    }

    /// The node that a right rotation puts in this node's place: the left
    /// child, with this node as its right child.
    pub open spec fn rotated_right(self) -> Self
        recommends
            self.left is Some,
    {
        let l = self.left.unwrap();
        AvlNode {
            key: l.key,
            value: l.value,
            height: l.height,
            left: l.left,
            right: Some(
                Box::new(
                    AvlNode {
                        key: self.key,
                        value: self.value,
                        height: (1 + larger(stored_height(l.right), stored_height(self.right))) as usize,
                        left: l.right,
                        right: self.right,
                    },
                ),
            ),
        }
    }

    /// The node that a left rotation puts in this node's place: the right
    /// child, with this node as its left child.
    pub open spec fn rotated_left(self) -> Self
        recommends
            self.right is Some,
    {
        let r = self.right.unwrap();
        AvlNode {
            key: r.key,
            value: r.value,
            height: r.height,
            left: Some(
                Box::new(
                    AvlNode {
                        key: self.key,
                        value: self.value,
                        height: (1 + larger(stored_height(self.left), stored_height(r.left))) as usize,
                        left: self.left,
                        right: r.left,
                    },
                ),
            ),
            right: r.right,
        }
    }

    /// A right rotation keeps the search order and what the tree holds.
    pub proof fn lemma_rotated_right(self)
        requires
            self.ordered(),
            self.left is Some,
        ensures
            self.rotated_right().ordered(),
            self.rotated_right().as_map() == self.as_map(),
            self.rotated_right().entries() == self.entries(),
    {
        let l = self.left.unwrap();
        let rot = self.rotated_right();
        let low = rot.right.unwrap();
        assert(tree_map(self.left).contains_key(l.key@));
        K::lemma_precedes_irreflexive(l.key@);
        K::lemma_precedes_irreflexive(self.key@);
        assert forall|k: K::V| #[trigger] tree_map(l.right).contains_key(k) implies K::precedes(
            k,
            self.key@,
        ) by {
            assert(tree_map(self.left).contains_key(k));
        }
        assert forall|k: K::V| #[trigger] tree_map(rot.right).contains_key(k) implies K::precedes(
            l.key@,
            k,
        ) by {
            if tree_map(self.right).contains_key(k) {
                K::lemma_precedes_transitive(l.key@, self.key@, k);
            }
        }
        assert forall|k: K::V| tree_map(self.right).contains_key(k) implies !tree_map(
            self.left,
        ).contains_key(k) && k != l.key@ by {
            K::lemma_precedes_transitive(l.key@, self.key@, k);
            if tree_map(self.left).contains_key(k) {
                K::lemma_precedes_transitive(k, self.key@, k);
            }
            K::lemma_precedes_irreflexive(k);
        }
        assert(!tree_map(self.left).contains_key(self.key@));
        assert(tree_map(rot.right) =~= low.as_map());
        assert(rot.as_map() =~= self.as_map());
        assert(rot.entries() =~= self.entries());
    }

    /// A left rotation keeps the search order and what the tree holds.
    pub proof fn lemma_rotated_left(self)
        requires
            self.ordered(),
            self.right is Some,
        ensures
            self.rotated_left().ordered(),
            self.rotated_left().as_map() == self.as_map(),
            self.rotated_left().entries() == self.entries(),
    {
        let r = self.right.unwrap();
        let rot = self.rotated_left();
        let low = rot.left.unwrap();
        assert(tree_map(self.right).contains_key(r.key@));
        K::lemma_precedes_irreflexive(r.key@);
        K::lemma_precedes_irreflexive(self.key@);
        assert forall|k: K::V| #[trigger] tree_map(r.left).contains_key(k) implies K::precedes(
            self.key@,
            k,
        ) by {
            assert(tree_map(self.right).contains_key(k));
        }
        assert forall|k: K::V| #[trigger] tree_map(rot.left).contains_key(k) implies K::precedes(
            k,
            r.key@,
        ) by {
            if tree_map(self.left).contains_key(k) {
                K::lemma_precedes_transitive(k, self.key@, r.key@);
            }
        }
        assert forall|k: K::V| tree_map(self.left).contains_key(k) implies !tree_map(
            self.right,
        ).contains_key(k) && k != r.key@ by {
            K::lemma_precedes_transitive(k, self.key@, r.key@);
            if tree_map(self.right).contains_key(k) {
                K::lemma_precedes_transitive(k, self.key@, k);
            }
            K::lemma_precedes_irreflexive(k);
        }
        assert(!tree_map(self.right).contains_key(self.key@));
        assert(tree_map(rot.left) =~= low.as_map());
        assert(rot.as_map() =~= self.as_map());
        assert(rot.entries() =~= self.entries());
    }

    /// A single node.
    pub fn new(key: K, value: V) -> (node: Self)
        ensures
            node.well_formed(),
            node == (AvlNode { key, value, height: 1, left: None, right: None }),
    {
        Self { key, value, left: None, right: None, height: 1 }
    }

    fn left_height(&self) -> (h: usize)
        ensures
            h == stored_height(self.left),
    {
        match &self.left {
            None => 0,
            Some(l) => l.height,
        }
    }

    fn right_height(&self) -> (h: usize)
        ensures
            h == stored_height(self.right),
    {
        match &self.right {
            None => 0,
            Some(r) => r.height,
        }
    }

    fn update_height(&mut self)
        requires
            stored_height(old(self).left) < usize::MAX,
            stored_height(old(self).right) < usize::MAX,
        ensures
            *final(self) == (AvlNode {
                height: (1 + larger(
                    stored_height(old(self).left),
                    stored_height(old(self).right),
                )) as usize,
                ..*old(self)
            }),
    {
        let l = self.left_height();
        let r = self.right_height();
        self.height = 1 + if l >= r {
            l
        } else {
            r
        };
    }

    fn balance_factor(&self) -> (bf: i8)
        requires
            stored_height(self.left) <= stored_height(self.right) + 2,
            stored_height(self.right) <= stored_height(self.left) + 2,
        ensures
            bf == stored_height(self.left) - stored_height(self.right),
    {
        let l = self.left_height();
        let r = self.right_height();
        if l >= r {
            (l - r) as i8
        } else {
            -((r - l) as i8)
        }
    }

    fn rotate_right(&mut self)
        requires
            old(self).left is Some,
            stored_height(old(self).left.unwrap().right) < usize::MAX,
            stored_height(old(self).right) < usize::MAX,
        ensures
            *final(self) == old(self).rotated_right(),
    {
        let mut left = self.left.take().unwrap();
        self.left = left.right.take();
        self.update_height();
        std::mem::swap(self, &mut *left);
        self.right = Some(left);
    }

    fn rotate_left(&mut self)
        requires
            old(self).right is Some,
            stored_height(old(self).left) < usize::MAX,
            stored_height(old(self).right.unwrap().left) < usize::MAX,
        ensures
            *final(self) == old(self).rotated_left(),
    {
        let mut right = self.right.take().unwrap();
        self.right = right.left.take();
        self.update_height();
        std::mem::swap(self, &mut *right);
        self.left = Some(right);
    }

    /// This node with the height that its subtrees' stored heights give.
    pub open spec fn with_height(self) -> Self {
        AvlNode {
            height: (1 + larger(stored_height(self.left), stored_height(self.right))) as usize,
            ..self
        }
    }

    /// This node with `right` as its right subtree.
    pub open spec fn with_right(self, right: Self) -> Self {
        AvlNode { right: Some(Box::new(right)), ..self }
    }

    /// This node with `left` as its left subtree.
    pub open spec fn with_left(self, left: Self) -> Self {
        AvlNode { left: Some(Box::new(left)), ..self }
    }

    /// The node that rebalancing puts in this node's place: where one
    /// subtree is two levels higher than the other, a single rotation towards
    /// the lower side, after a rotation of the higher child the other way
    /// where that child leans inwards.
    #[verifier::opaque]
    pub open spec fn rebalanced(self) -> Self {
        let l = stored_height(self.left);
        let r = stored_height(self.right);
        if r > l + 1 {
            let child = self.right.unwrap();
            if stored_height(child.left) > stored_height(child.right) {
                self.with_right(child.rotated_right()).rotated_left().with_height()
            } else {
                self.rotated_left().with_height()
            }
        } else if l > r + 1 {
            let child = self.left.unwrap();
            if stored_height(child.right) > stored_height(child.left) {
                self.with_left(child.rotated_left()).rotated_right().with_height()
            } else {
                self.rotated_right().with_height()
            }
        } else {
            self.with_height()
        }
    }

    /// Rebalancing keeps the search order and what the tree holds.
    pub proof fn lemma_rebalanced_entries(self)
        requires
            self.ordered(),
        ensures
            self.rebalanced().ordered(),
            self.rebalanced().as_map() == self.as_map(),
            self.rebalanced().entries() == self.entries(),
    {
        reveal(AvlNode::rebalanced);
        let l = stored_height(self.left);
        let r = stored_height(self.right);
        if r > l + 1 {
            let child = self.right.unwrap();
            if stored_height(child.left) > stored_height(child.right) {
                child.lemma_rotated_right();
                let mid = self.with_right(child.rotated_right());
                assert(tree_map(mid.right) =~= tree_map(self.right));
                assert(mid.as_map() =~= self.as_map());
                assert(mid.entries() =~= self.entries());
                mid.lemma_rotated_left();
            } else {
                self.lemma_rotated_left();
            }
        } else if l > r + 1 {
            let child = self.left.unwrap();
            if stored_height(child.right) > stored_height(child.left) {
                child.lemma_rotated_left();
                let mid = self.with_left(child.rotated_left());
                assert(tree_map(mid.left) =~= tree_map(self.left));
                assert(mid.as_map() =~= self.as_map());
                assert(mid.entries() =~= self.entries());
                mid.lemma_rotated_right();
            } else {
                self.lemma_rotated_right();
            }
        }
    }

    /// Rebalancing a node whose subtrees are balanced and differ in height
    /// by at most two gives a balanced tree, as high as the node was or one
    /// level lower.
    #[verifier::rlimit(60)]
    pub proof fn lemma_rebalanced_balance(self)
        requires
            tree_balanced(self.left),
            tree_balanced(self.right),
            tree_height(self.left) <= tree_height(self.right) + 2,
            tree_height(self.right) <= tree_height(self.left) + 2,
            tree_height(self.left) < usize::MAX,
            tree_height(self.right) < usize::MAX,
        ensures
            self.rebalanced().balanced(),
            self.rebalanced().height == self.spec_height() || self.rebalanced().height + 1
                == self.spec_height(),
            tree_height(self.left) <= tree_height(self.right) + 1 && tree_height(self.right)
                <= tree_height(self.left) + 1 ==> self.rebalanced().height == self.spec_height(),
    {
        reveal(AvlNode::rebalanced);
        lemma_balanced_unfold(self.left);
        lemma_balanced_unfold(self.right);
        let l = stored_height(self.left);
        let r = stored_height(self.right);
        let fin = self.rebalanced();
        if r > l + 1 {
            let child = self.right.unwrap();
            if stored_height(child.left) > stored_height(child.right) {
                let inner = child.left.unwrap();
                let low_left = fin.left.unwrap();
                let low_right = fin.right.unwrap();
                assert(low_left.left == self.left && low_left.right == inner.left);
                assert(low_right.left == inner.right && low_right.right == child.right);
                assert(tree_balanced(fin.left));
                assert(tree_balanced(fin.right));
            } else {
                let low = fin.left.unwrap();
                assert(low.left == self.left && low.right == child.left);
                assert(fin.right == child.right);
                assert(tree_balanced(fin.left));
            }
        } else if l > r + 1 {
            let child = self.left.unwrap();
            if stored_height(child.right) > stored_height(child.left) {
                let inner = child.right.unwrap();
                let low_left = fin.left.unwrap();
                let low_right = fin.right.unwrap();
                assert(low_left.left == child.left && low_left.right == inner.left);
                assert(low_right.left == inner.right && low_right.right == self.right);
                assert(tree_balanced(fin.left));
                assert(tree_balanced(fin.right));
            } else {
                let low = fin.right.unwrap();
                assert(low.left == child.right && low.right == self.right);
                assert(fin.left == child.left);
                assert(tree_balanced(fin.right));
            }
        }
    }

    /// Rebalancing does not look at the height that the node has stored,
    /// and leaves a node that has stored the height that its subtrees'
    /// stored heights give.
    pub proof fn lemma_rebalanced_height(self, height: usize)
        ensures
            (AvlNode { height, ..self }).rebalanced() == self.rebalanced(),
            self.rebalanced().with_height() == self.rebalanced(),
    {
        reveal(AvlNode::rebalanced);
    }

    /// A node with no subtrees.
    pub open spec fn leaf(key: K, value: V) -> Self {
        AvlNode { key, value, height: 1, left: None, right: None }
    }

    /// The tree that `insert` leaves: the value is put in the place of the
    /// old one where the key is present, else a leaf is added where the
    /// search for the key ends; every node on the way back up is rebalanced.
    pub open spec fn inserted(self, key: K, value: V) -> Self
        decreases self,
    {
        if K::precedes(self.key@, key@) {
            (AvlNode {
                right: Some(
                    Box::new(
                        match self.right {
                            Some(node) => node.inserted(key, value),
                            None => Self::leaf(key, value),
                        },
                    ),
                ),
                ..self
            }).rebalanced()
        } else if K::precedes(key@, self.key@) {
            (AvlNode {
                left: Some(
                    Box::new(
                        match self.left {
                            Some(node) => node.inserted(key, value),
                            None => Self::leaf(key, value),
                        },
                    ),
                ),
                ..self
            }).rebalanced()
        } else {
            (AvlNode { value, ..self }).rebalanced()
        }
    }

    /// The tree that `delete_max` leaves, and the entry that it takes
    /// out: the rightmost one; every node on the way back up is rebalanced.
    pub open spec fn without_max(self) -> (AvlTree<K, V>, K, V)
        decreases self,
    {
        match self.right {
            Some(node) => {
                let (rest, key, value) = node.without_max();
                (Some(Box::new((AvlNode { right: rest, ..self }).rebalanced())), key, value)
            },
            None => (self.left, self.key, self.value),
        }
    }

    /// The tree that `combine` makes of `left` and this node: the
    /// rightmost entry of `left` at the root, what is left of `left` to its
    /// left and this node to its right, rebalanced at the root.
    pub open spec fn combined(self, left: Self) -> Self {
        let (rest, key, value) = left.without_max();
        (AvlNode { key, value, height: 1, left: rest, right: Some(Box::new(self)) }).rebalanced()
    }

    /// The tree that `delete_root` leaves: the one subtree where the other
    /// is empty, else the two subtrees combined.
    pub open spec fn without_root(self) -> AvlTree<K, V> {
        match (self.left, self.right) {
            (None, None) => None,
            (Some(l), None) => Some(l),
            (None, Some(r)) => Some(r),
            (Some(l), Some(r)) => Some(Box::new(r.combined(*l))),
        }
    }

    /// The tree that `delete` leaves: the node with the key is taken out
    /// as `delete_root` does, and every node on the way back up is
    /// rebalanced; the tree stays as it is where the key is not present.
    pub open spec fn removed(self, key: K::V) -> AvlTree<K, V>
        decreases self,
    {
        if K::precedes(self.key@, key) {
            match self.right {
                Some(node) => Some(
                    Box::new((AvlNode { right: node.removed(key), ..self }).rebalanced()),
                ),
                None => Some(Box::new(self)),
            }
        } else if K::precedes(key, self.key@) {
            match self.left {
                Some(node) => Some(
                    Box::new((AvlNode { left: node.removed(key), ..self }).rebalanced()),
                ),
                None => Some(Box::new(self)),
            }
        } else {
            self.without_root()
        }
    }

    /// Restores the balance at this node after one of its subtrees has
    /// grown or shrunk by one level, and stores the node's height.
    fn rebalance(&mut self)
        requires
            tree_balanced(old(self).left),
            tree_balanced(old(self).right),
            tree_height(old(self).left) <= tree_height(old(self).right) + 2,
            tree_height(old(self).right) <= tree_height(old(self).left) + 2,
            tree_height(old(self).left) < usize::MAX,
            tree_height(old(self).right) < usize::MAX,
        ensures
            *final(self) == old(self).rebalanced(),
    {
        proof {
            reveal(AvlNode::rebalanced);
            lemma_balanced_unfold(self.left);
            lemma_balanced_unfold(self.right);
        }
        let balance_factor = self.balance_factor();
        if balance_factor < -1 {
            match &mut self.right {
                Some(right_node) => {
                    if right_node.balance_factor() > 0 {
                        right_node.rotate_right();
                    }
                },
                None => {},
            }
            self.rotate_left();
        } else if balance_factor > 1 {
            match &mut self.left {
                Some(left_node) => {
                    if left_node.balance_factor() < 0 {
                        left_node.rotate_left();
                    }
                },
                None => {},
            }
            self.rotate_right();
        }
        self.update_height()
    }

    /// A key on one side of this node's key is neither this node's key nor
    /// in the subtree on the other side.
    pub proof fn lemma_other_side(self, k: K::V)
        requires
            self.ordered(),
        ensures
            K::precedes(self.key@, k) ==> k != self.key@ && !tree_map(self.left).contains_key(k),
            K::precedes(k, self.key@) ==> k != self.key@ && !tree_map(self.right).contains_key(k),
    {
        K::lemma_precedes_irreflexive(k);
        if K::precedes(self.key@, k) && tree_map(self.left).contains_key(k) {
            K::lemma_precedes_transitive(k, self.key@, k);
        }
        if K::precedes(k, self.key@) && tree_map(self.right).contains_key(k) {
            K::lemma_precedes_transitive(k, self.key@, k);
        }
    }

    /// `after` is this node but for its height and its right subtree, in
    /// which `k` now stands with `v`: then `after` holds what this node
    /// held, and `k` with `v`.
    proof fn lemma_put_right(self, after: Self, k: K::V, v: V)
        requires
            self.ordered(),
            K::precedes(self.key@, k),
            after.key == self.key,
            after.value == self.value,
            after.left == self.left,
            tree_ordered(after.right),
            tree_map(after.right) == tree_map(self.right).insert(k, v),
        ensures
            after.ordered(),
            after.as_map() == self.as_map().insert(k, v),
    {
        self.lemma_other_side(k);
        assert(after.as_map() =~= self.as_map().insert(k, v));
    }

    /// As `lemma_put_right`, for the left subtree.
    proof fn lemma_put_left(self, after: Self, k: K::V, v: V)
        requires
            self.ordered(),
            K::precedes(k, self.key@),
            after.key == self.key,
            after.value == self.value,
            after.right == self.right,
            tree_ordered(after.left),
            tree_map(after.left) == tree_map(self.left).insert(k, v),
        ensures
            after.ordered(),
            after.as_map() == self.as_map().insert(k, v),
    {
        self.lemma_other_side(k);
        assert(after.as_map() =~= self.as_map().insert(k, v));
    }

    /// `after` is this node but for its height and its right subtree, from
    /// which `k` has gone: then `after` holds what this node held, without `k`.
    proof fn lemma_cut_right(self, after: Self, k: K::V)
        requires
            self.ordered(),
            K::precedes(self.key@, k),
            after.key == self.key,
            after.value == self.value,
            after.left == self.left,
            tree_ordered(after.right),
            tree_map(after.right) == tree_map(self.right).remove(k),
        ensures
            after.ordered(),
            after.as_map() == self.as_map().remove(k),
    {
        self.lemma_other_side(k);
        assert(after.as_map() =~= self.as_map().remove(k));
    }

    /// As `lemma_cut_right`, for the left subtree.
    proof fn lemma_cut_left(self, after: Self, k: K::V)
        requires
            self.ordered(),
            K::precedes(k, self.key@),
            after.key == self.key,
            after.value == self.value,
            after.right == self.right,
            tree_ordered(after.left),
            tree_map(after.left) == tree_map(self.left).remove(k),
        ensures
            after.ordered(),
            after.as_map() == self.as_map().remove(k),
    {
        self.lemma_other_side(k);
        assert(after.as_map() =~= self.as_map().remove(k));
    }

    /// Puts `value` under `key`, in place of the value that was there if
    /// the key was present, and rebalances on the way back up.
    pub fn insert(&mut self, key: K, value: V)
        requires
            old(self).well_formed(),
            old(self).height < usize::MAX,
        ensures
            final(self).well_formed(),
            final(self).as_map() == old(self).as_map().insert(key@, value),
            final(self).height == old(self).height || final(self).height == old(self).height + 1,
            *final(self) == old(self).inserted(key, value),
        decreases old(self).height,
    {
        proof {
            lemma_stored_height(self.left);
            lemma_stored_height(self.right);
            K::lemma_precedes_irreflexive(key@);
            if K::precedes(self.key@, key@) && K::precedes(key@, self.key@) {
                K::lemma_precedes_transitive(key@, self.key@, key@);
            }
        }
        let ghost before = *self;
        match self.key.compare(&key) {
            KeyOrder::Less => {
                match self.right.take() {
                    Some(mut node) => {
                        let ghost child = *node;
                        node.insert(key, value);
                        proof {
                            lemma_stored_height(node.left);
                            lemma_stored_height(node.right);
                        }
                        node.update_height();
                        proof {
                            assert(*node == child.inserted(key, value));
                        }
                        self.right = Some(node);
                    },
                    None => {
                        self.right = Some(Box::new(Self::new(key, value)));
                        self.update_height();
                    },
                }
                proof {
                    assert(tree_map(self.right) =~= tree_map(before.right).insert(key@, value));
                    before.lemma_put_right(*self, key@, value);
                }
            },
            KeyOrder::Greater => {
                match self.left.take() {
                    Some(mut node) => {
                        let ghost child = *node;
                        node.insert(key, value);
                        proof {
                            lemma_stored_height(node.left);
                            lemma_stored_height(node.right);
                        }
                        node.update_height();
                        proof {
                            assert(*node == child.inserted(key, value));
                        }
                        self.left = Some(node);
                    },
                    None => {
                        self.left = Some(Box::new(Self::new(key, value)));
                        self.update_height();
                    },
                }
                proof {
                    assert(tree_map(self.left) =~= tree_map(before.left).insert(key@, value));
                    before.lemma_put_left(*self, key@, value);
                }
            },
            KeyOrder::Equal => {
                self.value = value;
                proof {
                    assert(self.as_map() =~= before.as_map().insert(key@, value));
                }
            },
        }
        proof {
            self.lemma_rebalanced_entries();
            self.lemma_rebalanced_balance();
            self.lemma_rebalanced_height(before.height);
        }
        self.rebalance();
    }

    /// Removes `key` and its value, if the key is present, and rebalances
    /// on the way back up. Gives the tree that is left.
    pub fn delete(self, key: &K) -> (t: AvlTree<K, V>)
        requires
            self.well_formed(),
        ensures
            tree_wf(t),
            tree_map(t) == self.as_map().remove(key@),
            tree_height(t) == self.height || tree_height(t) + 1 == self.height,
            t == self.removed(key@),
        decreases self.height,
    {
        proof {
            lemma_stored_height(self.left);
            lemma_stored_height(self.right);
            self.lemma_other_side(key@);
            K::lemma_precedes_irreflexive(key@);
            if K::precedes(self.key@, key@) && K::precedes(key@, self.key@) {
                K::lemma_precedes_transitive(key@, self.key@, key@);
            }
        }
        let mut node = self;
        match node.key.compare(key) {
            KeyOrder::Less => {
                match node.right.take() {
                    Some(right) => {
                        node.right = (*right).delete(key);
                        proof {
                            self.lemma_cut_right(node, key@);
                            node.lemma_rebalanced_entries();
                            node.lemma_rebalanced_balance();
                        }
                        node.rebalance();
                        return Some(Box::new(node));
                    },
                    None => {},
                }
            },
            KeyOrder::Greater => {
                match node.left.take() {
                    Some(left) => {
                        node.left = (*left).delete(key);
                        proof {
                            self.lemma_cut_left(node, key@);
                            node.lemma_rebalanced_entries();
                            node.lemma_rebalanced_balance();
                        }
                        node.rebalance();
                        return Some(Box::new(node));
                    },
                    None => {},
                }
            },
            KeyOrder::Equal => {
                return node.delete_root();
            },
        }
        proof {
            assert(node == self);
            assert(self.as_map() =~= self.as_map().remove(key@));
        }
        Some(Box::new(node))
    }

    /// Removes this node from the top of its subtree.
    fn delete_root(self) -> (t: AvlTree<K, V>)
        requires
            self.well_formed(),
        ensures
            tree_wf(t),
            tree_map(t) == self.as_map().remove(self.key@),
            tree_height(t) == self.height || tree_height(t) + 1 == self.height,
            t == self.without_root(),
    {
        proof {
            lemma_stored_height(self.left);
            lemma_stored_height(self.right);
            self.lemma_without_root();
        }
        match (self.left, self.right) {
            (None, None) => None,
            (Some(l), None) => Some(l),
            (None, Some(r)) => Some(r),
            (Some(l), Some(r)) => Some(Box::new((*r).combine(l))),
        }
    }

    /// What is left of this node's entries without its own: the two
    /// subtrees' entries, and every key on the left comes before every key
    /// on the right.
    proof fn lemma_without_root(self)
        requires
            self.ordered(),
        ensures
            tree_map(self.left).union_prefer_right(tree_map(self.right)) == self.as_map().remove(
                self.key@,
            ),
            self.right is None ==> tree_map(self.left) == self.as_map().remove(self.key@),
            self.left is None ==> tree_map(self.right) == self.as_map().remove(self.key@),
            forall|a: K::V, b: K::V|
                tree_map(self.left).contains_key(a) && tree_map(self.right).contains_key(b)
                    ==> K::precedes(a, b),
    {
        K::lemma_precedes_irreflexive(self.key@);
        assert(tree_map(self.left).union_prefer_right(tree_map(self.right))
            =~= self.as_map().remove(self.key@));
        if self.right is None {
            assert(tree_map(self.left) =~= self.as_map().remove(self.key@));
        }
        if self.left is None {
            assert(tree_map(self.right) =~= self.as_map().remove(self.key@));
        }
        assert forall|a: K::V, b: K::V|
            tree_map(self.left).contains_key(a) && tree_map(self.right).contains_key(
                b,
            ) implies K::precedes(a, b) by {
            K::lemma_precedes_transitive(a, self.key@, b);
        }
    }

    /// Joins this subtree with `left`, all of whose keys come before this
    /// subtree's: the largest key of `left` becomes the root.
    fn combine(self, left: Box<AvlNode<K, V>>) -> (node: AvlNode<K, V>)
        requires
            self.well_formed(),
            left.well_formed(),
            forall|a: K::V, b: K::V|
                left.as_map().contains_key(a) && self.as_map().contains_key(b) ==> K::precedes(a, b),
            left.height <= self.height + 1,
            self.height <= left.height + 1,
            self.height < usize::MAX,
            left.height < usize::MAX,
        ensures
            node.well_formed(),
            node.as_map() == left.as_map().union_prefer_right(self.as_map()),
            node.height == 1 + larger(left.height as nat, self.height as nat) || node.height
                == larger(left.height as nat, self.height as nat),
            node == self.combined(*left),
    {
        let (rest, max_key, max_value) = (*left).delete_max();
        let mut new_root = Self::new(max_key, max_value);
        new_root.left = rest;
        new_root.right = Some(Box::new(self));
        proof {
            lemma_stored_height(self.left);
            lemma_stored_height(self.right);
            assert(tree_map(new_root.right) =~= self.as_map());
            assert(new_root.as_map() =~= left.as_map().union_prefer_right(self.as_map())) by {
                assert forall|b: K::V| self.as_map().contains_key(b) implies b != max_key@ by {
                    K::lemma_precedes_irreflexive(b);
                }
            }
            new_root.lemma_rebalanced_entries();
            new_root.lemma_rebalanced_balance();
        }
        new_root.rebalance();
        new_root
    }

    /// Removes the entry with the largest key. Gives the tree that is
    /// left, and that entry.
    fn delete_max(self) -> (res: (AvlTree<K, V>, K, V))
        requires
            self.well_formed(),
        ensures
            tree_wf(res.0),
            self.as_map().contains_key(res.1@),
            self.as_map()[res.1@] == res.2,
            tree_map(res.0) == self.as_map().remove(res.1@),
            all_before::<K, V>(tree_map(res.0), res.1@),
            tree_height(res.0) == self.height || tree_height(res.0) + 1 == self.height,
            res == self.without_max(),
        decreases self.height,
    {
        proof {
            lemma_stored_height(self.left);
            lemma_stored_height(self.right);
            self.lemma_without_root();
        }
        let mut node = self;
        match node.right.take() {
            Some(right) => {
                let (rest, key, value) = (*right).delete_max();
                node.right = rest;
                proof {
                    self.lemma_cut_right(node, key@);
                    self.lemma_other_side(key@);
                    assert forall|k: K::V| tree_map(self.left).contains_key(k) implies K::precedes(
                        k,
                        key@,
                    ) by {
                        K::lemma_precedes_transitive(k, self.key@, key@);
                    }
                    node.lemma_rebalanced_entries();
                    node.lemma_rebalanced_balance();
                }
                node.rebalance();
                (Some(Box::new(node)), key, value)
            },
            None => (node.left, node.key, node.value),
        }
    }

    /// The value under `key`, if the key is present.
    pub fn search(&self, key: &K) -> (found: Option<&V>)
        requires
            self.ordered(),
        ensures
            match found {
                Some(v) => self.as_map().contains_key(key@) && self.as_map()[key@] == *v,
                None => !self.as_map().contains_key(key@),
            },
        decreases self,
    {
        proof {
            self.lemma_other_side(key@);
        }
        match self.key.compare(key) {
            KeyOrder::Less => match &self.right {
                Some(node) => node.search(key),
                None => None,
            },
            KeyOrder::Greater => match &self.left {
                Some(node) => node.search(key),
                None => None,
            },
            KeyOrder::Equal => Some(&self.value),
        }
    }
}

/// The keys of `s` ascend strictly.
pub open spec fn ascending<K: TotalOrder, V>(s: Seq<(K::V, V)>) -> bool {
    forall|i: int, j: int| 0 <= i < j < s.len() ==> K::precedes((#[trigger] s[i]).0, (#[trigger] s[j]).0)
}

/// `s` lists exactly the entries of `m`.
pub open spec fn lists<KV, V>(s: Seq<(KV, V)>, m: Map<KV, V>) -> bool {
    &&& forall|i: int|
        0 <= i < s.len() ==> m.contains_key((#[trigger] s[i]).0) && m[s[i].0] == s[i].1
    &&& forall|k: KV| #[trigger]
        m.contains_key(k) ==> exists|i: int| 0 <= i < s.len() && (#[trigger] s[i]).0 == k
}

/// An in-order walk of a search tree lists exactly what the tree holds,
/// in strictly ascending order of the keys.
pub proof fn lemma_tree_entries<K: TotalOrder, V>(t: AvlTree<K, V>)
    requires
        tree_ordered(t),
    ensures
        ascending::<K, V>(tree_entries(t)),
        lists(tree_entries(t), tree_map(t)),
    decreases t,
{
    if let Some(n) = t {
        lemma_tree_entries(n.left);
        lemma_tree_entries(n.right);
        let el = tree_entries(n.left);
        let er = tree_entries(n.right);
        let s = tree_entries(t);
        let m = tree_map(t);
        let mid = el.len() as int;
        assert(s[mid] == (n.key@, n.value));
        assert forall|i: int| 0 <= i < s.len() implies m.contains_key((#[trigger] s[i]).0)
            && m[s[i].0] == s[i].1 by {
            if i < mid {
                assert(s[i] == el[i]);
                (*n).lemma_other_side(el[i].0);
            } else if i > mid {
                assert(s[i] == er[i - mid - 1]);
                (*n).lemma_other_side(er[i - mid - 1].0);
            }
        }
        assert forall|k: K::V| #[trigger] m.contains_key(k) implies exists|i: int|
            0 <= i < s.len() && (#[trigger] s[i]).0 == k by {
            if k == n.key@ {
                assert(s[mid].0 == k);
            } else if tree_map(n.right).contains_key(k) {
                let i = choose|i: int| 0 <= i < er.len() && (#[trigger] er[i]).0 == k;
                assert(s[mid + 1 + i] == er[i]);
            } else {
                assert(tree_map(n.left).contains_key(k));
                let i = choose|i: int| 0 <= i < el.len() && (#[trigger] el[i]).0 == k;
                assert(s[i] == el[i]);
            }
        }
        assert forall|i: int, j: int| 0 <= i < j < s.len() implies K::precedes(
            (#[trigger] s[i]).0,
            (#[trigger] s[j]).0,
        ) by {
            let a = s[i].0;
            let b = s[j].0;
            if i < mid {
                assert(s[i] == el[i]);
                assert(K::precedes(a, n.key@));
            } else if i > mid {
                assert(s[i] == er[i - mid - 1]);
            }
            if j < mid {
                assert(s[j] == el[j]);
            } else if j > mid {
                assert(s[j] == er[j - mid - 1]);
                assert(K::precedes(n.key@, b));
            }
            if i < mid && j > mid {
                K::lemma_precedes_transitive(a, n.key@, b);
            }
        }
    }
}

/// A list with strictly ascending keys of exactly the entries of a map shows
/// the map to be finite, with as many entries as the list is long.
pub proof fn lemma_listed_len<K: TotalOrder, V>(s: Seq<(K::V, V)>, m: Map<K::V, V>)
    requires
        ascending::<K, V>(s),
        lists(s, m),
    ensures
        m.dom().finite(),
        m.dom().len() == s.len(),
    decreases s.len(),
{
    if s.len() == 0 {
        assert(m.dom() =~= Set::empty());
    } else {
        let last = s.last();
        let rest = s.drop_last();
        let m2 = m.remove(last.0);
        assert(s[s.len() - 1] == last);
        assert forall|i: int| 0 <= i < rest.len() implies m2.contains_key((#[trigger] rest[i]).0)
            && m2[rest[i].0] == rest[i].1 by {
            assert(rest[i] == s[i]);
            K::lemma_precedes_irreflexive(last.0);
        }
        assert forall|k: K::V| #[trigger] m2.contains_key(k) implies exists|i: int|
            0 <= i < rest.len() && (#[trigger] rest[i]).0 == k by {
            assert(m.contains_key(k));
            let i = choose|i: int| 0 <= i < s.len() && (#[trigger] s[i]).0 == k;
            assert(rest[i] == s[i]);
        }
        assert forall|i: int, j: int| 0 <= i < j < rest.len() implies K::precedes(
            (#[trigger] rest[i]).0,
            (#[trigger] rest[j]).0,
        ) by {
            assert(rest[i] == s[i]);
            assert(rest[j] == s[j]);
        }
        lemma_listed_len::<K, V>(rest, m2);
        assert(m.dom() =~= m2.dom().insert(last.0));
    }
}

/// A tree is no higher than it has entries.
pub proof fn lemma_height_le_len<K: TotalOrder, V>(t: AvlTree<K, V>)
    ensures
        tree_height(t) <= tree_entries(t).len(),
    decreases t,
{
    if let Some(n) = t {
        lemma_height_le_len(n.left);
        lemma_height_le_len(n.right);
    }
}

/// `b` has the shape and stored heights of `a`, and each key and value of
/// `b` is a clone of the one in the same place in `a`.
pub open spec fn tree_cloned<K: TotalOrder + Clone, V: Clone>(
    a: AvlTree<K, V>,
    b: AvlTree<K, V>,
) -> bool
    decreases a,
{
    match (a, b) {
        (None, None) => true,
        (Some(x), Some(y)) => {
            &&& cloned::<K>(x.key, y.key)
            &&& cloned::<V>(x.value, y.value)
            &&& x.height == y.height
            &&& tree_cloned(x.left, y.left)
            &&& tree_cloned(x.right, y.right)
        },
        _ => false,
    }
}

/// Copies a subtree node by node.
pub fn clone_tree<K: TotalOrder + Clone, V: Clone>(t: &AvlTree<K, V>) -> (res: AvlTree<K, V>)
    ensures
        tree_cloned(*t, res),
    decreases *t,
{
    match t {
        None => None,
        Some(n) => Some(
            Box::new(
                AvlNode {
                    key: n.key.clone(),
                    value: n.value.clone(),
                    height: n.height,
                    left: clone_tree(&n.left),
                    right: clone_tree(&n.right),
                },
            ),
        ),
    }
}

impl<K: TotalOrder + Clone, V: Clone> Clone for AvlNode<K, V> {
    fn clone(&self) -> (res: Self)
        ensures
            cloned::<K>(self.key, res.key),
            cloned::<V>(self.value, res.value),
            res.height == self.height,
            tree_cloned(self.left, res.left),
            tree_cloned(self.right, res.right),
    {
        AvlNode {
            key: self.key.clone(),
            value: self.value.clone(),
            height: self.height,
            left: clone_tree(&self.left),
            right: clone_tree(&self.right),
        }
    }
}

} // verus!
