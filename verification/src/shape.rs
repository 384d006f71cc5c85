//! The mathematical model of a binary tree of integers.
//!
//! Every contract of this crate is stated over [`Shape`]: what a tree holds,
//! what an insertion does to it, and in which order a traversal lists it.

use vstd::prelude::*;

verus! {

/// A binary tree of integers, as a value: either nothing, or a key with a
/// left and a right subtree.
pub enum Shape {
    Empty,
    Fork(Box<Shape>, i32, Box<Shape>),
}

/// Each element is less than every element after it.
pub open spec fn strictly_ascending(s: Seq<i32>) -> bool {
    forall|i: int, j: int| 0 <= i < j < s.len() ==> s[i] < s[j]
}

/// A subtree as an entry of a queue of nodes: itself, unless it is empty.
pub open spec fn present(t: Shape) -> Seq<Shape> {
    if t is Empty {
        Seq::empty()
    } else {
        seq![t]
    }
}

/// The non-empty children of a tree's root, left before right.
pub open spec fn kids(t: Shape) -> Seq<Shape> {
    match t {
        Shape::Empty => Seq::empty(),
        Shape::Fork(left, _, right) => present(*left) + present(*right),
    }
}

/// The tree, then its left subtree, then that one's left subtree, and so on
/// down to the last that is not empty.
pub open spec fn left_spine(t: Shape) -> Seq<Shape>
    decreases t,
{
    match t {
        Shape::Empty => Seq::empty(),
        Shape::Fork(left, _, _) => seq![t] + left_spine(*left),
    }
}

impl Shape {
    /// The tree that holds `value` and nothing else.
    pub open spec fn leaf(value: i32) -> Shape {
        Shape::Fork(Box::new(Shape::Empty), value, Box::new(Shape::Empty))
    }

    /// The number of nodes.
    pub open spec fn size(self) -> nat
        decreases self,
    {
        match self {
            Shape::Empty => 0,
            Shape::Fork(left, _, right) => 1 + left.size() + right.size(),
        }
    }

    /// The number of levels: 0 for the empty tree, 1 for a single node.
    pub open spec fn height(self) -> nat
        decreases self,
    {
        match self {
            Shape::Empty => 0,
            Shape::Fork(left, _, right) => if left.height() >= right.height() {
                1 + left.height()
            } else {
                1 + right.height()
            },
        }
    }

    /// The keys held anywhere in the tree.
    pub open spec fn keys(self) -> Set<i32>
        decreases self,
    {
        match self {
            Shape::Empty => Set::empty(),
            Shape::Fork(left, key, right) => left.keys().union(right.keys()).insert(key),
        }
    }

    /// The search-tree ordering: at every node, all keys of the left subtree
    /// are less than the node's key, and all keys of the right subtree are
    /// greater. It rules out duplicates.
    pub open spec fn is_bst(self) -> bool
        decreases self,
    {
        match self {
            Shape::Empty => true,
            Shape::Fork(left, key, right) => {
                &&& left.is_bst()
                &&& right.is_bst()
                &&& forall|k: i32| left.keys().contains(k) ==> k < key
                &&& forall|k: i32| right.keys().contains(k) ==> key < k
            },
        }
    }

    /// The tree after a walk from the root that goes right where `value` is
    /// greater than the key met, left where it is less, stops at an equal key,
    /// and hangs a new leaf where the walk falls off the tree.
    pub open spec fn insert(self, value: i32) -> Shape
        decreases self,
    {
        match self {
            Shape::Empty => Shape::leaf(value),
            Shape::Fork(left, key, right) => if value > key {
                Shape::Fork(left, key, Box::new(right.insert(value)))
            } else if value < key {
                Shape::Fork(Box::new(left.insert(value)), key, right)
            } else {
                self
            },
        }
    }

    /// The tree grown from the empty tree by inserting `values` first to last.
    pub open spec fn from_inserts(values: Seq<i32>) -> Shape
        decreases values.len(),
    {
        if values.len() == 0 {
            Shape::Empty
        } else {
            Shape::from_inserts(values.drop_last()).insert(values.last())
        }
    }

    /// The keys in left-root-right order.
    pub open spec fn in_order(self) -> Seq<i32>
        decreases self,
    {
        match self {
            Shape::Empty => Seq::empty(),
            Shape::Fork(left, key, right) => left.in_order().push(key) + right.in_order(),
        }
    }

    /// The keys at distance `depth` from the root, left to right.
    pub open spec fn level(self, depth: nat) -> Seq<i32>
        decreases self,
    {
        match self {
            Shape::Empty => Seq::empty(),
            Shape::Fork(left, key, right) => if depth == 0 {
                seq![key]
            } else {
                left.level((depth - 1) as nat) + right.level((depth - 1) as nat)
            },
        }
    }

    /// The levels `0 .. count`, one after the other.
    pub open spec fn first_levels(self, count: nat) -> Seq<i32>
        decreases count,
    {
        if count == 0 {
            Seq::empty()
        } else {
            self.first_levels((count - 1) as nat) + self.level((count - 1) as nat)
        }
    }

    /// The keys level by level from the root down, left to right within each
    /// level.
    pub open spec fn level_order(self) -> Seq<i32> {
        self.first_levels(self.height())
    }
}

} // verus!
