//! The tree itself: construction, insertion and the traversals.

use std::collections::VecDeque;
use vstd::prelude::*;
use crate::forest::{
    children, forest_size, lemma_children_concat, lemma_forest_size_concat, lemma_kids_level,
    lemma_kids_size, lemma_single, lemma_walk_is_level_order, lemma_walk_split, walk,
};
use crate::in_order_iter::InOrderIterator;
use crate::laws::{
    lemma_in_order_ascending, lemma_in_order_keys, lemma_insert_keeps_order, lemma_insert_keys,
};
use crate::level_iter::LevelIterator;
use crate::node::{shape_of, shapes_of, Node};
use crate::shape::{kids, strictly_ascending, Shape};

verus! {

/// A binary search tree of `i32` keys.
///
/// A tree starts empty and changes by insertion alone, so at every node the
/// keys to the left are less and the keys to the right are greater.
#[derive(Debug)]
pub struct Tree {
    root: Option<Box<Node>>,
}

impl View for Tree {
    type V = Shape;

    closed spec fn view(&self) -> Shape {
        Node::slot_shape(self.root)
    }
}

impl Tree {
    /// Every tree is a search tree, at all times.
    #[verifier::type_invariant]
    spec fn ordered(self) -> bool {
        self@.is_bst()
    }

    /// The empty tree.
    pub fn new() -> (tree: Self)
        ensures
            tree@ == Shape::Empty,
    {
        Self { root: None }
    }

    /// The root node, absent in the empty tree.
    pub fn root(&self) -> (root: Option<&Box<Node>>)
        ensures
            shape_of(root) == self@,
            self@.is_bst(),
    {
        proof {
            use_type_invariant(self);
        }
        self.root.as_ref()
    }

    /// A lazy walk over the keys level by level. It starts with the root
    /// as the node that is due and with nothing queued.
    pub fn level_iter(&self) -> (it: LevelIterator<'_>)
        ensures
            it.remaining() == self@.level_order(),
            it.current() == self@,
            it.waiting() == Seq::<Shape>::empty(),
    {
        LevelIterator::new(self.root.as_ref())
    }

    /// A lazy walk over the keys in ascending order. It starts with the
    /// root as the node that is due and with an empty stack.
    pub fn in_ord_iter(&self) -> (it: InOrderIterator<'_>)
        ensures
            it.remaining() == self@.in_order(),
            strictly_ascending(it.remaining()),
            it.remaining().to_set() == self@.keys(),
            it.current() == self@,
            it.stacked() == Seq::<Shape>::empty(),
    {
        proof {
            use_type_invariant(self);
            lemma_in_order_ascending(self@);
            lemma_in_order_keys(self@);
        }
        InOrderIterator::new(self.root.as_ref())
    }

    /// The keys level by level, collected at once.
    pub fn values(&self) -> (out: Vec<i32>)
        ensures
            out@ == self@.level_order(),
    {
        if self.root.is_none() {
            proof {
                lemma_walk_is_level_order(self@);
            }
            return Vec::new();
        }
        let mut results: Vec<i32> = Vec::new();
        let mut dq: VecDeque<&Box<Node>> = VecDeque::new();
        let root = self.root.as_ref().unwrap();
        results.push(root.value);
        dq.push_back(root);
        proof {
            assert(shapes_of(dq@) =~= seq![self@]);
            lemma_walk_is_level_order(self@);
            lemma_single(self@, 0);
        }
        while dq.len() > 0
            invariant
                self@.level_order() == results@ + walk(children(shapes_of(dq@))),
            decreases forest_size(shapes_of(dq@)),
        {
            let count = dq.len();
            let ghost start = forest_size(shapes_of(dq@));
            for step in 0..count
                invariant
                    self@.level_order() == results@ + walk(children(shapes_of(dq@))),
                    forest_size(shapes_of(dq@)) + step == start,
                    dq.len() + step >= count,
            {
                let ghost row = shapes_of(dq@);
                let ghost listed = results@;
                if let Some(node) = dq.pop_front() {
                    let ghost rest = shapes_of(dq@);
                    if let Some(ref left) = node.left {
                        results.push(left.value);
                        dq.push_back(left);
                    }
                    if let Some(ref right) = node.right {
                        results.push(right.value);
                        dq.push_back(right);
                    }
                    proof {
                        assert(row.drop_first() =~= rest);
                        assert(shapes_of(dq@) =~= rest + kids(node@));
                        let below = Node::slot_shape(node.left).level(0) + Node::slot_shape(
                            node.right,
                        ).level(0);
                        assert(node@.level(1) == below);
                        assert(results@ =~= listed + below);
                        lemma_kids_level(node@, 0);
                        lemma_walk_split(kids(node@), children(rest));
                        lemma_children_concat(rest, kids(node@));
                        lemma_forest_size_concat(rest, kids(node@));
                        lemma_kids_size(node@);
                    }
                }
            }
        }
        results
    }

    /// Adds `value` to the tree; a value that the tree holds already changes
    /// nothing.
    pub fn insert(&mut self, value: i32)
        ensures
            final(self)@ == old(self)@.insert(value),
            final(self)@.keys() == old(self)@.keys().insert(value),
            final(self)@.is_bst(),
    {
        self.insert_iterative(value);
    }

    /// Adds `value` to the subtree at `node`, descending by recursion.
    pub fn insert_recursive(node: &mut Box<Node>, value: i32)
        ensures
            final(node)@ == old(node)@.insert(value),
            old(node)@.is_bst() ==> final(node)@.is_bst(),
        decreases *old(node),
    {
        proof {
            if node@.is_bst() {
                lemma_insert_keeps_order(node@, value);
            }
        }
        if value > node.value {
            match node.right {
                None => {
                    node.right = Node::new(value).into();
                    assert(Shape::Empty.insert(value) == Shape::leaf(value));
                },
                Some(ref mut child) => Self::insert_recursive(child, value),
            }
        } else if value < node.value {
            match node.left {
                None => {
                    node.left = Node::new(value).into();
                    assert(Shape::Empty.insert(value) == Shape::leaf(value));
                },
                Some(ref mut child) => Self::insert_recursive(child, value),
            }
        }
    }

    /// Adds `value` to the tree, descending in a loop.
    pub fn insert_iterative(&mut self, value: i32)
        ensures
            final(self)@ == old(self)@.insert(value),
            final(self)@.keys() == old(self)@.keys().insert(value),
            final(self)@.is_bst(),
    {
        proof {
            use_type_invariant(&*self);
            lemma_insert_keeps_order(self@, value);
            lemma_insert_keys(self@, value);
        }
        let mut root: Option<Box<Node>> = None;
        std::mem::swap(&mut root, &mut self.root);
        let ghost before = Node::slot_shape(root);
        if root.is_none() {
            root = Node::new(value).into();
        } else {
            let mut cur: &mut Box<Node> = root.as_mut().unwrap();
            loop
                invariant_except_break
                    final(cur)@ == cur@.insert(value) ==> Node::slot_shape(after_borrow(root))
                        == before.insert(value),
                ensures
                    Node::slot_shape(after_borrow(root)) == before.insert(value),
                decreases *cur,
            {
                if value > cur.value {
                    match cur.right {
                        None => {
                            cur.right = Node::new(value).into();
                            assert(Shape::Empty.insert(value) == Shape::leaf(value));
                            break ;
                        },
                        Some(ref mut child) => {
                            cur = child;
                        },
                    }
                } else if value < cur.value {
                    match cur.left {
                        None => {
                            cur.left = Node::new(value).into();
                            assert(Shape::Empty.insert(value) == Shape::leaf(value));
                            break ;
                        },
                        Some(ref mut child) => {
                            cur = child;
                        },
                    }
                } else {
                    break ;
                }
            }
        }
        self.root = root;
    }
}

} // verus!
