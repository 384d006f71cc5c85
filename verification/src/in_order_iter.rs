//! Depth-first traversal in left-root-right order, one key per step.

use vstd::prelude::*;
use crate::node::{shape_of, shapes_of, Node};
use crate::shape::{left_spine, Shape};

verus! {

/// A walk over a tree in left-root-right order.
///
/// The walk holds the node whose subtree is due next, if any, and a stack of
/// the nodes above it whose own key and right subtree are still to come.
pub struct InOrderIterator<'a> {
    node: Option<&'a Box<Node>>,
    queue: Vec<&'a Box<Node>>,
}

/// What the stacked trees still owe, the top of the stack first: of each its
/// root key, then its right subtree in order.
spec fn unwind(stack: Seq<Shape>) -> Seq<i32>
    decreases stack.len(),
{
    if stack.len() == 0 {
        Seq::empty()
    } else {
        match stack.last() {
            Shape::Empty => unwind(stack.drop_last()),
            Shape::Fork(_, key, right) => seq![key] + right.in_order() + unwind(
                stack.drop_last(),
            ),
        }
    }
}

impl<'a> InOrderIterator<'a> {
    /// The subtree at the node whose subtree is due next; empty where none
    /// is held.
    pub closed spec fn current(&self) -> Shape {
        shape_of(self.node)
    }

    /// The subtrees at the stacked nodes, the top of the stack last.
    pub closed spec fn stacked(&self) -> Seq<Shape> {
        shapes_of(self.queue@)
    }

    /// The keys that the walk has yet to yield, in the order in which it
    /// will yield them.
    pub closed spec fn remaining(&self) -> Seq<i32> {
        self.current().in_order() + unwind(self.stacked())
    }

    /// A walk that starts at `node` and covers the subtree below it.
    pub fn new(node: Option<&'a Box<Node>>) -> (it: Self)
        ensures
            it.remaining() == shape_of(node).in_order(),
            it.current() == shape_of(node),
            it.stacked() == Seq::<Shape>::empty(),
    {
        Self { node, queue: Vec::new() }
    }

    /// Yields the next key, or `None` once every key has been yielded.
    ///
    /// The node held and the nodes down its left edge are pushed on the
    /// stack. The top of the stack is then popped and its key yielded, and its
    /// right child is the node held afterwards.
    pub fn next(&mut self) -> (out: Option<i32>)
        ensures
            match out {
                Some(value) => {
                    &&& old(self).remaining().len() > 0
                    &&& value == old(self).remaining().first()
                    &&& final(self).remaining() == old(self).remaining().drop_first()
                },
                None => {
                    &&& old(self).remaining().len() == 0
                    &&& final(self).remaining() == old(self).remaining()
                },
            },
            ({
                let full = old(self).stacked() + left_spine(old(self).current());
                if full.len() == 0 {
                    &&& out is None
                    &&& final(self).stacked() == old(self).stacked()
                    &&& final(self).current() is Empty
                } else {
                    &&& full.last() matches Shape::Fork(_, key, right) && out == Some(key)
                        && final(self).current() == *right
                    &&& final(self).stacked() == full.drop_last()
                }
            }),
    {
        let ghost owed = self.remaining();
        let ghost full = self.stacked() + left_spine(self.current());
        loop
            invariant
                self.remaining() == owed,
                self.stacked() + left_spine(self.current()) == full,
            ensures
                self.node is None,
            decreases shape_of(self.node).size(),
        {
            match self.node {
                None => {
                    break ;
                },
                Some(node) => {
                    let ghost stack = shapes_of(self.queue@);
                    self.queue.push(node);
                    self.node = node.left.as_ref();
                    assert(shapes_of(self.queue@).drop_last() =~= stack);
                },
            }
        }
        let ghost stack = shapes_of(self.queue@);
        match self.queue.pop() {
            None => None,
            Some(node) => {
                self.node = node.right.as_ref();
                assert(shapes_of(self.queue@) =~= stack.drop_last());
                Some(node.value)
            },
        }
    }

    /// Runs the walk to its end and returns the keys it yields.
    pub fn collect(self) -> (out: Vec<i32>)
        ensures
            out@ == self.remaining(),
    {
        let mut it = self;
        let mut out: Vec<i32> = Vec::new();
        loop
            invariant_except_break
                out@ + it.remaining() == self.remaining(),
            ensures
                out@ == self.remaining(),
            decreases it.remaining().len(),
        {
            match it.next() {
                Some(value) => {
                    out.push(value);
                },
                None => {
                    break ;
                },
            }
        }
        out
    }
}

} // verus!
