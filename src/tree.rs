//! An unbalanced binary search tree: keys greater than a node's value go
//! right, all others (ties included) go left. Nothing rebalances it, so an
//! ordered run of inserts degrades it to a list.

use crate::order::{at_most, lawful_key, lemma_eq_is_identity, lemma_order_laws, precedes};
use vstd::multiset::Multiset;
use vstd::prelude::*;

verus! {

broadcast use vstd::multiset::group_multiset_axioms;

/// Why an insert could not be carried out. No insert fails at present; the
/// kind is kept for a future bound on depth or size.
#[derive(Debug, PartialEq, Eq)]
pub enum TreeError {
    CapacityExceeded,
}

/// A node owns its value and its two subtrees.
#[derive(Debug, PartialEq, Eq)]
pub struct Node<T> {
    pub value: T,
    pub left: Option<Box<Node<T>>>,
    pub right: Option<Box<Node<T>>>,
}

/// A tree is empty or owns its root node.
#[derive(Debug, PartialEq, Eq)]
pub struct Tree<T> {
    pub root: Option<Node<T>>,
}

/// The values held in an optional subtree, with their multiplicities.
pub open spec fn subtree_elems<T>(n: Option<Box<Node<T>>>) -> Multiset<T>
    decreases n,
{
    match n {
        Some(b) => subtree_elems(b.left).add(subtree_elems(b.right)).insert(b.value),
        None => Multiset::empty(),
    }
}

/// The search-tree order holds throughout an optional subtree: below each
/// node, left values are at most its value and right values come after it.
pub open spec fn subtree_ordered<T: PartialOrd>(n: Option<Box<Node<T>>>) -> bool
    decreases n,
{
    match n {
        Some(b) => {
            &&& subtree_ordered(b.left)
            &&& subtree_ordered(b.right)
            &&& forall|x: T| #[trigger] subtree_elems(b.left).contains(x) ==> at_most(x, b.value)
            &&& forall|x: T| #[trigger] subtree_elems(b.right).contains(x) ==> precedes(b.value, x)
        },
        None => true,
    }
}

/// What a search for `value` returns over a collection of values.
pub open spec fn lookup<T>(elems: Multiset<T>, value: T) -> Option<T> {
    if elems.contains(value) {
        Some(value)
    } else {
        None
    }
}

impl<T> Node<T> {
    /// The values of this node and all below it.
    pub open spec fn elems(self) -> Multiset<T> {
        self.below().insert(self.value)
    }

    /// The values strictly below this node.
    pub open spec fn below(self) -> Multiset<T> {
        subtree_elems(self.left).add(subtree_elems(self.right))
    }
}

impl<T: PartialOrd> Node<T> {
    /// The search-tree order holds at this node and everywhere below it.
    pub open spec fn is_bst(self) -> bool {
        subtree_ordered(Some(Box::new(self)))
    }
}

impl<T> Tree<T> {
    /// The values in the tree, with their multiplicities.
    pub open spec fn elems(self) -> Multiset<T> {
        match self.root {
            Some(n) => n.elems(),
            None => Multiset::empty(),
        }
    }
}

impl<T: PartialOrd> Tree<T> {
    /// The search-tree order holds throughout the tree.
    pub open spec fn is_bst(self) -> bool {
        match self.root {
            Some(n) => n.is_bst(),
            None => true,
        }
    }
}

impl<T: Ord + Copy> Node<T> {
    /// A leaf holding `value`.
    pub fn new(value: T) -> (n: Self)
        ensures
            n.value == value,
            n.left is None,
            n.right is None,
            n.elems() =~= Multiset::empty().insert(value),
            n.is_bst(),
    {
        let n = Self { left: None, right: None, value };
        proof {
            assert(subtree_elems::<T>(None) == Multiset::<T>::empty());
            assert(subtree_ordered::<T>(None));
            assert(forall|x: T| !Multiset::<T>::empty().contains(x));
            assert(subtree_ordered(Some(Box::new(n))));
        }
        n
    }

    /// Looks for `value` strictly below this node, going right when it comes
    /// after this node's value and left otherwise.
    pub fn search(&self, value: T) -> (r: Option<T>)
        requires
            lawful_key::<T>(),
            self.is_bst(),
        ensures
            r == lookup(self.below(), value),
        decreases self,
    {
        proof {
            lemma_order_laws::<T>();
        }
        if value > self.value {
            proof {
                if subtree_elems(self.left).contains(value) {
                    assert(at_most(value, self.value));
                }
            }
            self.search_right(value)
        } else {
            proof {
                if subtree_elems(self.right).contains(value) {
                    assert(precedes(self.value, value));
                }
            }
            self.search_left(value)
        }
    }

    /// Looks for `value` in the right subtree.
    pub fn search_right(&self, value: T) -> (r: Option<T>)
        requires
            lawful_key::<T>(),
            self.is_bst(),
        ensures
            r == lookup(subtree_elems(self.right), value),
        decreases self, 0nat,
    {
        proof {
            lemma_eq_is_identity::<T>();
        }
        if let Some(right) = &self.right {
            if right.value == value {
                return Some(right.value);
            } else {
                return right.search(value);
            }
        }
        None
    }

    /// Looks for `value` in the left subtree.
    pub fn search_left(&self, value: T) -> (r: Option<T>)
        requires
            lawful_key::<T>(),
            self.is_bst(),
        ensures
            r == lookup(subtree_elems(self.left), value),
        decreases self, 0nat,
    {
        proof {
            lemma_eq_is_identity::<T>();
        }
        if let Some(left) = &self.left {
            if left.value == value {
                return Some(left.value);
            } else {
                return left.search(value);
            }
        }
        None
    }
}

impl<T: Ord + Copy> Node<T> {
    /// Adds `value` below this node: to the right when it comes after this
    /// node's value, to the left otherwise.
    pub fn insert(&mut self, value: T) -> (r: Result<(), TreeError>)
        requires
            lawful_key::<T>(),
            old(self).is_bst(),
        ensures
            r is Ok,
            final(self).value == old(self).value,
            final(self).elems() =~= old(self).elems().insert(value),
            final(self).is_bst(),
        decreases *old(self),
    {
        proof {
            lemma_order_laws::<T>();
        }
        if value > self.value {
            self.insert_right(value)
        } else {
            self.insert_left(value)
        }
    }

    /// Adds `value` to the right subtree, creating it if absent.
    pub fn insert_right(&mut self, value: T) -> (r: Result<(), TreeError>)
        requires
            lawful_key::<T>(),
            old(self).is_bst(),
            precedes(old(self).value, value),
        ensures
            r is Ok,
            final(self).value == old(self).value,
            final(self).left == old(self).left,
            subtree_elems(final(self).right) =~= subtree_elems(old(self).right).insert(value),
            final(self).is_bst(),
        decreases *old(self), 0nat,
    {
        let ghost before = *self;
        let r = if let Some(right) = &mut self.right {
            right.insert(value)
        } else {
            self.right = Some(Box::new(Node::new(value)));
            Ok(())
        };
        proof {
            assert(subtree_ordered(self.right));
            assert forall|x: T| #[trigger] subtree_elems(self.right).contains(x) implies precedes(self.value, x) by {
                if x != value {
                    assert(subtree_elems(before.right).contains(x));
                }
            }
        }
        r
    }

    /// Adds `value` to the left subtree, creating it if absent.
    pub fn insert_left(&mut self, value: T) -> (r: Result<(), TreeError>)
        requires
            lawful_key::<T>(),
            old(self).is_bst(),
            at_most(value, old(self).value),
        ensures
            r is Ok,
            final(self).value == old(self).value,
            final(self).right == old(self).right,
            subtree_elems(final(self).left) =~= subtree_elems(old(self).left).insert(value),
            final(self).is_bst(),
        decreases *old(self), 0nat,
    {
        let ghost before = *self;
        let r = if let Some(left) = &mut self.left {
            left.insert(value)
        } else {
            self.left = Some(Box::new(Node::new(value)));
            Ok(())
        };
        proof {
            assert(subtree_ordered(self.left));
            assert forall|x: T| #[trigger] subtree_elems(self.left).contains(x) implies at_most(x, self.value) by {
                if x != value {
                    assert(subtree_elems(before.left).contains(x));
                }
            }
        }
        r
    }
}

impl<T: Ord + Copy> Tree<T> {
    /// Adds `value` to the tree; an empty tree gets it as its root. Ties go
    /// to the left. Never fails.
    pub fn insert(&mut self, value: T) -> (r: Result<(), TreeError>)
        requires
            lawful_key::<T>(),
            old(self).is_bst(),
        ensures
            r is Ok,
            final(self).elems() =~= old(self).elems().insert(value),
            final(self).is_bst(),
    {
        match &mut self.root {
            None => {
                self.root = Some(Node::new(value));
                Ok(())
            },
            Some(n) => n.insert(value),
        }
    }

    /// Returns `value` when the tree holds it, and `None` otherwise.
    pub fn search(&self, value: T) -> (r: Option<T>)
        requires
            lawful_key::<T>(),
            self.is_bst(),
        ensures
            r == lookup(self.elems(), value),
    {
        proof {
            lemma_eq_is_identity::<T>();
        }
        if let Some(root) = &self.root {
            if root.value == value {
                return Some(root.value);
            } else {
                return root.search(value);
            }
        }
        None
    }
}

/// A search after an insert finds the inserted value, and finds any other
/// value exactly when it was found before the insert.
pub proof fn lemma_search_after_insert<T>(before: Multiset<T>, after: Multiset<T>, value: T, other: T)
    requires
        after == before.insert(value),
    ensures
        lookup(after, value) == Some(value),
        other != value ==> lookup(after, other) == lookup(before, other),
{
}

/// The empty tree satisfies the search-tree order and a search in it finds
/// nothing.
pub proof fn lemma_empty_tree<T: PartialOrd>(value: T)
    ensures
        (Tree::<T> { root: None }).is_bst(),
        lookup((Tree::<T> { root: None }).elems(), value) == None::<T>,
{
}

} // verus!
